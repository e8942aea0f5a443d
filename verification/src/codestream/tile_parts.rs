//! The tile-parts (ISO/IEC 15444-1 A.4.2): each one's header markers and packet
//! data, gathered per tile.

use super::cursor::{
    be16, read_u16, segment, segment_body, segment_end, segment_fits, segment_text, truncated,
    Cursor,
};
use super::lists::{
    chunk_views, decode_plt, decode_poc, decode_sot, piece_views, plt_ok, plt_text, poc_from,
    poc_text, repeat_text, sot_spec, sot_text, stitch, stitched, Sot,
};
use super::markers::marker;
use super::markers::{Cod, Coding, PocVolume, Qcd, Siz};
use super::segments::{
    coc_spec, coc_text, cod_spec, cod_text, decode_coc, decode_cod, decode_qcc, decode_quant,
    decode_rgn, index_width, qcc_spec, qcc_text, quant_spec, quant_text, rgn_spec, rgn_text,
};
use super::{
    coc_views, qcc_views, rgn_views, HeaderView, MainHeader, Tile, TileHeader, TileHeaderView,
    TileView,
};
use crate::error::{Error, ErrorKind, Result};
use crate::math::max_int;
use crate::text::{decimal, decimal_text, hex, hex_text};
use crate::tier2::{append_slice, join};
use std::borrow::Cow;
use vstd::prelude::*;
use vstd::slice::{slice_subrange, slice_to_vec};
use vstd::string::*;

verus! {

/// One tile-part's header markers: the tile's parameters, and the numbered packed
/// packet headers.
pub struct PartHeaderView {
    pub tile: TileHeaderView,
    pub ppt: Seq<(u8, Seq<u8>)>,
}

/// A component is named by one of the overrides.
pub open spec fn names<T>(s: Seq<(int, T)>, i: int) -> bool {
    exists|j: int| 0 <= j < s.len() && (#[trigger] s[j]).0 == i
}

impl PartHeaderView {
    /// A tile-part header without any marker.
    pub open spec fn empty() -> PartHeaderView {
        PartHeaderView { tile: TileHeaderView::empty(), ppt: Seq::empty() }
    }

    /// The markers that say how to read the tile's packets. They belong to the
    /// first tile-part of a tile.
    pub open spec fn is_override(code: u16) -> bool {
        code == marker::COD || code == marker::QCD || code == marker::COC || code == marker::QCC
            || code == marker::RGN
    }

    /// The state after one more marker segment.
    pub open spec fn absorb(self, code: u16, b: Seq<u8>, count: int) -> core::result::Result<
        PartHeaderView,
        ErrorKind,
    > {
        let tile = self.tile;
        if code == marker::COD {
            match cod_spec(b) {
                Err(e) => Err(e),
                Ok(c) => if tile.cod is Some {
                    Err(ErrorKind::Codestream)
                } else {
                    Ok(PartHeaderView { tile: TileHeaderView { cod: Some(c), ..tile }, ..self })
                },
            }
        } else if code == marker::QCD {
            match quant_spec(b, 0) {
                Err(e) => Err(e),
                Ok(q) => if tile.qcd is Some {
                    Err(ErrorKind::Codestream)
                } else {
                    Ok(PartHeaderView { tile: TileHeaderView { qcd: Some(q), ..tile }, ..self })
                },
            }
        } else if code == marker::COC {
            match coc_spec(b, count) {
                Err(e) => Err(e),
                Ok(v) => if names(tile.coc, v.0) {
                    Err(ErrorKind::Codestream)
                } else {
                    Ok(
                        PartHeaderView {
                            tile: TileHeaderView { coc: tile.coc.push(v), ..tile },
                            ..self
                        },
                    )
                },
            }
        } else if code == marker::QCC {
            match qcc_spec(b, count) {
                Err(e) => Err(e),
                Ok(v) => if names(tile.qcc, v.0) {
                    Err(ErrorKind::Codestream)
                } else {
                    Ok(
                        PartHeaderView {
                            tile: TileHeaderView { qcc: tile.qcc.push(v), ..tile },
                            ..self
                        },
                    )
                },
            }
        } else if code == marker::RGN {
            match rgn_spec(b, count) {
                Err(e) => Err(e),
                Ok(v) => if names(tile.rgn, v.0) {
                    Err(ErrorKind::Codestream)
                } else {
                    Ok(
                        PartHeaderView {
                            tile: TileHeaderView { rgn: tile.rgn.push(v), ..tile },
                            ..self
                        },
                    )
                },
            }
        } else if code == marker::POC {
            match poc_from(b, 0, index_width(count), tile.poc) {
                Err(e) => Err(e),
                Ok(poc) => Ok(
                    PartHeaderView { tile: TileHeaderView { poc, ..tile }, ..self },
                ),
            }
        } else if code == marker::PPT {
            if b.len() == 0 {
                Err(ErrorKind::Codestream)
            } else {
                Ok(
                    PartHeaderView {
                        ppt: self.ppt.push((b[0], b.subrange(1, b.len() as int))),
                        ..self
                    },
                )
            }
        } else if code == marker::PLT {
            if plt_ok(b) {
                Ok(self)
            } else {
                Err(ErrorKind::Codestream)
            }
        } else {
            Ok(self)
        }
    }

    /// What is said of a marker segment that cannot be taken in.
    pub open spec fn absorb_text(self, code: u16, b: Seq<u8>, count: int) -> Seq<char> {
        let here = " in the tile-part header"@;
        if code == marker::COD {
            if cod_spec(b) is Err {
                cod_text(b)
            } else {
                "duplicate COD marker in the tile-part header"@
            }
        } else if code == marker::QCD {
            if quant_spec(b, 0) is Err {
                quant_text(b, 0, "QCD"@)
            } else {
                "duplicate QCD marker in the tile-part header"@
            }
        } else if code == marker::COC {
            match coc_spec(b, count) {
                Err(_) => coc_text(b, count),
                Ok(v) => "duplicate COC marker for component "@ + decimal_text(v.0 as nat) + here,
            }
        } else if code == marker::QCC {
            match qcc_spec(b, count) {
                Err(_) => qcc_text(b, count),
                Ok(v) => "duplicate QCC marker for component "@ + decimal_text(v.0 as nat) + here,
            }
        } else if code == marker::RGN {
            match rgn_spec(b, count) {
                Err(_) => rgn_text(b, count),
                Ok(v) => "duplicate RGN marker for component "@ + decimal_text(v.0 as nat) + here,
            }
        } else if code == marker::POC {
            poc_text(b, 0, index_width(count), self.tile.poc.len() as int)
        } else if code == marker::PPT {
            truncated()
        } else {
            plt_text(b)
        }
    }

    /// The markers that belong to the main header or between the packets.
    pub open spec fn misplaced(code: u16) -> bool {
        code == marker::TLM || code == marker::PLM || code == marker::SOP || code == marker::EPH
    }

    /// What is said of a marker that a tile-part header may not carry. `first` says
    /// that it is the tile's first.
    pub open spec fn refused_text(code: u16, first: bool) -> Seq<char> {
        if Self::is_override(code) && !first {
            "marker "@ + hex_text(code)
                + " appears in a tile-part header other than the first; the coding-parameter"@
                + " overrides belong to the first tile-part of a tile"@
        } else if Self::misplaced(code) {
            "marker "@ + hex_text(code) + " is not permitted in a tile-part header"@
        } else {
            "unexpected marker "@ + hex_text(code) + " in tile-part header"@
        }
    }

    /// What is said of the tile-part header's markers from `pos` on, where one is at
    /// fault.
    pub open spec fn absorb_from_text(
        self,
        b: Seq<u8>,
        pos: int,
        count: int,
        first: bool,
    ) -> Seq<char>
        decreases max_int(0, b.len() - pos),
    {
        let code = be16(b, pos) as u16;
        if pos < 0 || pos + 2 > b.len() {
            truncated()
        } else if !Self::allows(code) || (Self::is_override(code) && !first) {
            Self::refused_text(code, first)
        } else if !segment_fits(b, pos + 2) {
            segment_text(b, pos + 2)
        } else {
            match self.absorb(code, segment_body(b, pos + 2), count) {
                Err(_) => self.absorb_text(code, segment_body(b, pos + 2), count),
                Ok(next) => next.absorb_from_text(b, segment_end(b, pos + 2), count, first),
            }
        }
    }

    /// The markers that a tile-part header may carry.
    pub open spec fn allows(code: u16) -> bool {
        Self::is_override(code) || code == marker::POC || code == marker::PPT || code
            == marker::PLT || code == marker::COM
    }

    /// The tile-part header's markers from `pos` to the SOD, and where the packet
    /// data starts.
    pub open spec fn absorb_from(
        self,
        b: Seq<u8>,
        pos: int,
        count: int,
        first: bool,
    ) -> core::result::Result<(PartHeaderView, int), ErrorKind>
        decreases max_int(0, b.len() - pos),
    {
        let code = be16(b, pos) as u16;
        if pos < 0 || pos + 2 > b.len() {
            Err(ErrorKind::Codestream)
        } else if code == marker::SOD {
            Ok((self, pos + 2))
        } else if !Self::allows(code) || (Self::is_override(code) && !first) || !segment_fits(
            b,
            pos + 2,
        ) {
            Err(ErrorKind::Codestream)
        } else {
            match self.absorb(code, segment_body(b, pos + 2), count) {
                Err(e) => Err(e),
                Ok(next) => next.absorb_from(b, segment_end(b, pos + 2), count, first),
            }
        }
    }
}

/// Whether one of the coding overrides names component `i`.
fn coc_names(s: &Vec<(usize, Coding)>, i: usize) -> (r: bool)
    ensures
        r == names(coc_views(s@), i as int),
{
    let mut j: usize = 0;
    while j < s.len()
        invariant
            j <= s@.len(),
            forall|k: int| 0 <= k < j ==> (#[trigger] coc_views(s@)[k]).0 != i,
        decreases s@.len() - j,
    {
        if s[j].0 == i {
            assert(coc_views(s@)[j as int].0 == i);
            return true;
        }
        j = j + 1;
    }
    false
}

/// Whether one of the quantization overrides names component `i`.
fn qcc_names(s: &Vec<(usize, Qcd)>, i: usize) -> (r: bool)
    ensures
        r == names(qcc_views(s@), i as int),
{
    let mut j: usize = 0;
    while j < s.len()
        invariant
            j <= s@.len(),
            forall|k: int| 0 <= k < j ==> (#[trigger] qcc_views(s@)[k]).0 != i,
        decreases s@.len() - j,
    {
        if s[j].0 == i {
            assert(qcc_views(s@)[j as int].0 == i);
            return true;
        }
        j = j + 1;
    }
    false
}

/// Whether one of the maxshifts names component `i`.
fn rgn_names(s: &Vec<(usize, u8)>, i: usize) -> (r: bool)
    ensures
        r == names(rgn_views(s@), i as int),
{
    let mut j: usize = 0;
    while j < s.len()
        invariant
            j <= s@.len(),
            forall|k: int| 0 <= k < j ==> (#[trigger] rgn_views(s@)[k]).0 != i,
        decreases s@.len() - j,
    {
        if s[j].0 == i {
            assert(rgn_views(s@)[j as int].0 == i);
            return true;
        }
        j = j + 1;
    }
    false
}

/// One tile-part's header markers.
struct PartHeader {
    tile: TileHeader,
    ppt: Vec<(u8, Vec<u8>)>,
}

impl View for PartHeader {
    type V = PartHeaderView;

    closed spec fn view(&self) -> PartHeaderView {
        PartHeaderView { tile: self.tile@, ppt: piece_views(self.ppt@) }
    }
}

impl PartHeader {
    /// Take in one more marker segment.
    fn absorb(&mut self, code: u16, body: Cursor<'_>, siz: &Siz) -> (r: Result<()>)
        requires
            body.wf(),
            body.pos == 0,
        ensures
            match r {
                Ok(_) => old(self)@.absorb(code, body.buf@, siz@.components.len() as int) == Ok::<
                    PartHeaderView,
                    ErrorKind,
                >(final(self)@),
                Err(e) => {
                    &&& old(self)@.absorb(code, body.buf@, siz@.components.len() as int)
                        == Err::<PartHeaderView, ErrorKind>(e.kind())
                    &&& e.message() == old(self)@.absorb_text(
                        code,
                        body.buf@,
                        siz@.components.len() as int,
                    )
                },
            },
    {
        let ghost before = self@;
        if code == marker::COD {
            let cod: Cod = decode_cod(body)?;
            if self.tile.cod.is_some() {
                return Err(
                    Error::Codestream("duplicate COD marker in the tile-part header".to_string()),
                );
            }
            self.tile.cod = Some(cod);
        } else if code == marker::QCD {
            let qcd: Qcd = decode_quant(body, "QCD")?;
            if self.tile.qcd.is_some() {
                return Err(
                    Error::Codestream("duplicate QCD marker in the tile-part header".to_string()),
                );
            }
            self.tile.qcd = Some(qcd);
        } else if code == marker::COC {
            let (index, coding): (usize, Coding) = decode_coc(body, siz)?;
            if coc_names(&self.tile.coc, index) {
                return Err(
                    Error::Codestream(
                        "duplicate COC marker for component ".to_string().concat(
                            decimal(index as u64).as_str(),
                        ).concat(" in the tile-part header"),
                    ),
                );
            }
            let ghost view = coding@;
            self.tile.coc.push((index, coding));
            assert(self@.tile.coc =~= before.tile.coc.push((index as int, view)));
        } else if code == marker::QCC {
            let (index, quant): (usize, Qcd) = decode_qcc(body, siz)?;
            if qcc_names(&self.tile.qcc, index) {
                return Err(
                    Error::Codestream(
                        "duplicate QCC marker for component ".to_string().concat(
                            decimal(index as u64).as_str(),
                        ).concat(" in the tile-part header"),
                    ),
                );
            }
            let ghost view = quant@;
            self.tile.qcc.push((index, quant));
            assert(self@.tile.qcc =~= before.tile.qcc.push((index as int, view)));
        } else if code == marker::RGN {
            let (index, shift): (usize, u8) = decode_rgn(body, siz)?;
            if rgn_names(&self.tile.rgn, index) {
                return Err(
                    Error::Codestream(
                        "duplicate RGN marker for component ".to_string().concat(
                            decimal(index as u64).as_str(),
                        ).concat(" in the tile-part header"),
                    ),
                );
            }
            self.tile.rgn.push((index, shift));
            assert(self@.tile.rgn =~= before.tile.rgn.push((index as int, shift)));
        } else if code == marker::POC {
            decode_poc(body, siz, &mut self.tile.poc)?;
        } else if code == marker::PPT {
            let mut b: Cursor<'_> = body;
            let zppt: u8 = b.u8()?;
            let payload: &[u8] = b.take(b.remaining())?;
            self.ppt.push((zppt, slice_to_vec(payload)));
            assert(self@.ppt =~= before.ppt.push((zppt, payload@)));
        } else if code == marker::PLT {
            decode_plt(body)?;
        }
        Ok(())
    }
}

/// Read one tile-part header: the markers behind its SOT segment, up to its SOD.
/// The cursor is left at the packet data.
fn read_tile_part_header(cur: &mut Cursor<'_>, siz: &Siz, first_part: bool) -> (r: Result<PartHeader>)
    requires
        old(cur).wf(),
    ensures
        final(cur).wf(),
        final(cur).buf@ == old(cur).buf@,
        match r {
            Ok(h) => {
                &&& PartHeaderView::empty().absorb_from(
                    old(cur).buf@,
                    old(cur).pos as int,
                    siz@.components.len() as int,
                    first_part,
                ) == Ok::<(PartHeaderView, int), ErrorKind>((h@, final(cur).pos as int))
                &&& final(cur).pos > old(cur).pos
            },
            Err(e) => {
                &&& PartHeaderView::empty().absorb_from(
                    old(cur).buf@,
                    old(cur).pos as int,
                    siz@.components.len() as int,
                    first_part,
                ) == Err::<(PartHeaderView, int), ErrorKind>(e.kind())
                &&& e.message() == PartHeaderView::empty().absorb_from_text(
                    old(cur).buf@,
                    old(cur).pos as int,
                    siz@.components.len() as int,
                    first_part,
                )
            },
        },
{
    let mut part: PartHeader = PartHeader { tile: TileHeader::default(), ppt: Vec::new() };
    assert(part@.ppt =~= Seq::empty());
    loop
        invariant
            cur.wf(),
            cur.buf@ == old(cur).buf@,
            cur.pos >= old(cur).pos,
            PartHeaderView::empty().absorb_from(
                old(cur).buf@,
                old(cur).pos as int,
                siz@.components.len() as int,
                first_part,
            ) == part@.absorb_from(
                cur.buf@,
                cur.pos as int,
                siz@.components.len() as int,
                first_part,
            ),
            PartHeaderView::empty().absorb_from_text(
                old(cur).buf@,
                old(cur).pos as int,
                siz@.components.len() as int,
                first_part,
            ) == part@.absorb_from_text(
                cur.buf@,
                cur.pos as int,
                siz@.components.len() as int,
                first_part,
            ),
        decreases cur.buf@.len() - cur.pos,
    {
        let code: u16 = cur.u16()?;
        if code == marker::SOD {
            return Ok(part);
        }
        let is_override: bool = code == marker::COD || code == marker::QCD || code == marker::COC
            || code == marker::QCC || code == marker::RGN;
        if is_override && !first_part {
            return Err(
                Error::Codestream(
                    "marker ".to_string().concat(hex(code).as_str()).concat(
                        " appears in a tile-part header other than the first; the coding-parameter",
                    ).concat(" overrides belong to the first tile-part of a tile"),
                ),
            );
        }
        if !is_override && code != marker::POC && code != marker::PPT && code != marker::PLT
            && code != marker::COM {
            let misplaced: bool = code == marker::TLM || code == marker::PLM || code == marker::SOP
                || code == marker::EPH;
            return Err(
                Error::Codestream(
                    if misplaced {
                        "marker ".to_string().concat(hex(code).as_str()).concat(
                            " is not permitted in a tile-part header",
                        )
                    } else {
                        "unexpected marker ".to_string().concat(hex(code).as_str()).concat(
                            " in tile-part header",
                        )
                    },
                ),
            );
        }
        let body: Cursor<'_> = segment(cur)?;
        part.absorb(code, body, siz)?;
    }
}

/// What has been seen of one tile.
pub struct PartsView {
    /// Each tile-part's packet data, in order.
    pub parts: Seq<Seq<u8>>,
    /// How many parts the tile says it has, if one of them said so.
    pub declared: Option<u8>,
    pub header: TileHeaderView,
    pub packed: Seq<u8>,
}

impl PartsView {
    /// A tile that nothing has been seen of.
    pub open spec fn fresh() -> PartsView {
        PartsView {
            parts: Seq::empty(),
            declared: None,
            header: TileHeaderView::empty(),
            packed: Seq::empty(),
        }
    }

    /// The tile has its parts, and as many as it says.
    pub open spec fn complete(self) -> bool {
        self.parts.len() > 0 && (self.declared matches Some(d) ==> d == self.parts.len())
    }

    /// A tile-part is the next one of this tile. Its parts are numbered from 0 and
    /// come in order, and those that say how many there are agree.
    pub open spec fn continues(self, sot: Sot) -> bool {
        &&& sot.tile_part_index == self.parts.len()
        &&& sot.num_tile_parts != 0 ==> sot.tile_part_index < sot.num_tile_parts && (self.declared
            matches Some(d) ==> d == sot.num_tile_parts)
    }

    /// What is said of a tile-part that is not the next one of its tile.
    pub open spec fn continues_text(self, sot: Sot) -> Seq<char> {
        let tile = "tile "@ + decimal_text(sot.tile_index as nat);
        if sot.tile_part_index != self.parts.len() {
            tile + " tile-part index is "@ + decimal_text(sot.tile_part_index as nat) + ", but "@
                + decimal_text(self.parts.len()) + " of its tile-parts have been read"@
        } else if sot.tile_part_index >= sot.num_tile_parts {
            tile + " tile-part "@ + decimal_text(sot.tile_part_index as nat) + " of a declared "@
                + decimal_text(sot.num_tile_parts as nat) + " tile-parts"@
        } else {
            tile + " declares "@ + decimal_text(sot.num_tile_parts as nat)
                + " tile-parts in one SOT and "@ + decimal_text(self.declared->Some_0 as nat)
                + " in another"@
        }
    }

    /// What is said of tile `index`, which is not complete.
    pub open spec fn incomplete_text(self, index: int) -> Seq<char> {
        if self.parts.len() == 0 {
            "the codestream carries no tile-part for tile "@ + decimal_text(index as nat)
        } else {
            "tile "@ + decimal_text(index as nat) + " declares "@ + decimal_text(
                self.declared->Some_0 as nat,
            ) + " tile-parts but carries "@ + decimal_text(self.parts.len())
        }
    }

    /// The tile with one more part. The first part brings the tile's parameters, a
    /// later one may add progression volumes.
    pub open spec fn grown(
        self,
        sot: Sot,
        tile: TileHeaderView,
        packed: Seq<u8>,
        data: Seq<u8>,
    ) -> PartsView {
        PartsView {
            parts: self.parts.push(data),
            declared: if sot.num_tile_parts != 0 {
                Some(sot.num_tile_parts)
            } else {
                self.declared
            },
            header: if sot.tile_part_index == 0 {
                tile
            } else {
                TileHeaderView { poc: self.header.poc + tile.poc, ..self.header }
            },
            packed: self.packed + packed,
        }
    }
}

/// The packed packet headers of tile-part `k` of the codestream: its chunk of the
/// main header's, or its own. Where the main header carries them, every tile-part
/// has a chunk there and none carries its own.
pub open spec fn packed_spec(
    ppt: Seq<(u8, Seq<u8>)>,
    chunks: Seq<Seq<u8>>,
    k: int,
) -> core::result::Result<Seq<u8>, ErrorKind> {
    if chunks.len() == 0 {
        stitched(ppt)
    } else if ppt.len() > 0 || k >= chunks.len() {
        Err(ErrorKind::Codestream)
    } else {
        Ok(chunks[k])
    }
}

/// What is said of packed packet headers that a tile-part cannot have.
pub open spec fn packed_text(ppt: Seq<(u8, Seq<u8>)>, chunks: Seq<Seq<u8>>) -> Seq<char> {
    if chunks.len() == 0 {
        repeat_text("PPT"@)
    } else if ppt.len() > 0 {
        "PPT appears beside PPM"@
    } else {
        "PPM has no packet headers for a tile-part"@
    }
}

/// Where a tile-part's data ends: `psot` bytes from its SOT, or at the EOC that
/// closes the codestream.
pub open spec fn part_end(b: Seq<u8>, at: int, psot: u32, start: int) -> Option<int> {
    let end = if psot == 0 {
        b.len() - 2
    } else {
        at + psot
    };
    if end < start || end > b.len() || (psot == 0 && be16(b, end) != marker::EOC) {
        None
    } else {
        Some(end)
    }
}

/// What is said of a tile-part's length that does not fit.
pub open spec fn end_text(b: Seq<u8>, at: int, psot: u32) -> Seq<char> {
    if psot == 0 {
        "Psot=0 tile-part is not terminated by EOC"@
    } else if at + psot > b.len() {
        "Psot overruns the codestream"@
    } else {
        "Psot is shorter than the tile-part header"@
    }
}

/// The tiles after tile-part `k`, whose SOT is at `at`, and where that part ends.
pub open spec fn part_spec(
    b: Seq<u8>,
    at: int,
    tiles: Seq<PartsView>,
    count: int,
    chunks: Seq<Seq<u8>>,
    k: int,
) -> core::result::Result<(Seq<PartsView>, int), ErrorKind> {
    let body = segment_body(b, at + 2);
    let sot = sot_spec(body);
    let i = sot.tile_index as int;
    if at + 2 > b.len() || be16(b, at) != marker::SOT || !segment_fits(b, at + 2) || body.len()
        != 8 || i >= tiles.len() || !tiles[i].continues(sot) {
        Err(ErrorKind::Codestream)
    } else {
        match PartHeaderView::empty().absorb_from(
            b,
            segment_end(b, at + 2),
            count,
            sot.tile_part_index == 0,
        ) {
            Err(e) => Err(e),
            Ok((part, start)) => match (
                packed_spec(part.ppt, chunks, k),
                part_end(b, at, sot.psot, start),
            ) {
                (Ok(packed), Some(end)) => Ok(
                    (
                        tiles.update(
                            i,
                            tiles[i].grown(sot, part.tile, packed, b.subrange(start, end)),
                        ),
                        end,
                    ),
                ),
                _ => Err(ErrorKind::Codestream),
            },
        }
    }
}

/// What is said of tile-part `k`, whose SOT is at `at`, that is at fault.
pub open spec fn part_text(
    b: Seq<u8>,
    at: int,
    tiles: Seq<PartsView>,
    count: int,
    chunks: Seq<Seq<u8>>,
    k: int,
) -> Seq<char> {
    let body = segment_body(b, at + 2);
    let sot = sot_spec(body);
    let i = sot.tile_index as int;
    let first = sot.tile_part_index == 0;
    if at + 2 > b.len() {
        truncated()
    } else if be16(b, at) != marker::SOT {
        "tile-part does not start with SOT"@
    } else if !segment_fits(b, at + 2) {
        segment_text(b, at + 2)
    } else if body.len() != 8 {
        sot_text(body)
    } else if i >= tiles.len() {
        "tile-part names tile "@ + decimal_text(i as nat) + ", but the grid holds "@ + decimal_text(
            tiles.len(),
        ) + " tiles"@
    } else if !tiles[i].continues(sot) {
        tiles[i].continues_text(sot)
    } else {
        match PartHeaderView::empty().absorb_from(b, segment_end(b, at + 2), count, first) {
            Err(_) => PartHeaderView::empty().absorb_from_text(
                b,
                segment_end(b, at + 2),
                count,
                first,
            ),
            Ok((part, _)) => if packed_spec(part.ppt, chunks, k) is Err {
                packed_text(part.ppt, chunks)
            } else {
                end_text(b, at, sot.psot)
            },
        }
    }
}

/// The packet data starts behind the header.
proof fn lemma_header_end(p: PartHeaderView, b: Seq<u8>, pos: int, count: int, first: bool)
    ensures
        p.absorb_from(b, pos, count, first) matches Ok(v) ==> v.1 > pos,
    decreases max_int(0, b.len() - pos),
{
    let code = be16(b, pos) as u16;
    if pos < 0 || pos + 2 > b.len() || code == marker::SOD || !PartHeaderView::allows(code)
        || !segment_fits(b, pos + 2) {
    } else {
        match p.absorb(code, segment_body(b, pos + 2), count) {
            Ok(next) => {
                lemma_header_end(next, b, segment_end(b, pos + 2), count, first);
            },
            Err(_) => {},
        }
    }
}

/// A tile-part ends behind where it starts.
pub proof fn lemma_part_end(
    b: Seq<u8>,
    at: int,
    tiles: Seq<PartsView>,
    count: int,
    chunks: Seq<Seq<u8>>,
    k: int,
)
    ensures
        part_spec(b, at, tiles, count, chunks, k) matches Ok(v) ==> at < v.1 <= b.len() && v.0.len()
            == tiles.len(),
{
    let sot = sot_spec(segment_body(b, at + 2));
    lemma_header_end(
        PartHeaderView::empty(),
        b,
        segment_end(b, at + 2),
        count,
        sot.tile_part_index == 0,
    );
}

/// The tiles after every tile-part from the one at `at` to the EOC.
pub open spec fn parts_from(
    b: Seq<u8>,
    at: int,
    tiles: Seq<PartsView>,
    count: int,
    chunks: Seq<Seq<u8>>,
    k: int,
) -> core::result::Result<Seq<PartsView>, ErrorKind>
    decreases max_int(0, b.len() - at),
    via parts_from_decreases
{
    match part_spec(b, at, tiles, count, chunks, k) {
        Err(e) => Err(e),
        Ok((next, end)) => if end + 2 > b.len() {
            Err(ErrorKind::Codestream)
        } else if be16(b, end) == marker::EOC {
            Ok(next)
        } else if be16(b, end) == marker::SOT {
            parts_from(b, end, next, count, chunks, k + 1)
        } else {
            Err(ErrorKind::Codestream)
        },
    }
}

#[via_fn]
proof fn parts_from_decreases(
    b: Seq<u8>,
    at: int,
    tiles: Seq<PartsView>,
    count: int,
    chunks: Seq<Seq<u8>>,
    k: int,
) {
    lemma_part_end(b, at, tiles, count, chunks, k);
}

/// What is said of the tile-parts from the one at `at` on, where one is at fault.
pub open spec fn parts_text(
    b: Seq<u8>,
    at: int,
    tiles: Seq<PartsView>,
    count: int,
    chunks: Seq<Seq<u8>>,
    k: int,
) -> Seq<char>
    decreases max_int(0, b.len() - at),
    via parts_text_decreases
{
    match part_spec(b, at, tiles, count, chunks, k) {
        Err(_) => part_text(b, at, tiles, count, chunks, k),
        Ok((next, end)) => if end + 2 > b.len() {
            "missing EOC after the tile-part"@
        } else if be16(b, end) == marker::SOT {
            parts_text(b, end, next, count, chunks, k + 1)
        } else {
            "expected SOT or EOC after a tile-part, found "@ + hex_text(be16(b, end) as u16)
        },
    }
}

#[via_fn]
proof fn parts_text_decreases(
    b: Seq<u8>,
    at: int,
    tiles: Seq<PartsView>,
    count: int,
    chunks: Seq<Seq<u8>>,
    k: int,
) {
    lemma_part_end(b, at, tiles, count, chunks, k);
}

/// The first tile from `i` on that is not complete.
pub open spec fn first_incomplete(tiles: Seq<PartsView>, i: int) -> int
    decreases max_int(0, tiles.len() - i),
{
    if i < tiles.len() && tiles[i].complete() {
        first_incomplete(tiles, i + 1)
    } else {
        i
    }
}

/// What is said of tile-parts that do not make up the tiles of the grid.
pub open spec fn tiles_text(
    b: Seq<u8>,
    sot: int,
    h: HeaderView,
    chunks: Seq<Seq<u8>>,
) -> Seq<char> {
    let fresh = Seq::new(h.siz.num_tiles() as nat, |i: int| PartsView::fresh());
    let count = h.siz.components.len() as int;
    match parts_from(b, sot, fresh, count, chunks, 0) {
        Err(_) => parts_text(b, sot, fresh, count, chunks, 0),
        Ok(tiles) => tiles[first_incomplete(tiles, 0)].incomplete_text(first_incomplete(tiles, 0)),
    }
}

/// The tiles of the grid, each joined over its tile-parts. Every tile must be
/// there.
pub open spec fn tiles_spec(
    b: Seq<u8>,
    sot: int,
    h: HeaderView,
    chunks: Seq<Seq<u8>>,
) -> core::result::Result<Seq<TileView>, ErrorKind> {
    let fresh = Seq::new(h.siz.num_tiles() as nat, |i: int| PartsView::fresh());
    match parts_from(b, sot, fresh, h.siz.components.len() as int, chunks, 0) {
        Err(e) => Err(e),
        Ok(tiles) => if exists|i: int|
            0 <= i < tiles.len() && !(#[trigger] tiles[i]).complete() {
            Err(ErrorKind::Codestream)
        } else {
            Ok(
                Seq::new(
                    tiles.len(),
                    |i: int|
                        TileView {
                            index: i as u32,
                            header: tiles[i].header,
                            data: join(tiles[i].parts),
                            packed_headers: tiles[i].packed,
                        },
                ),
            )
        },
    }
}

/// What has been seen of one tile while the tile-parts are walked.
struct TileParts<'a> {
    parts: Vec<&'a [u8]>,
    declared: Option<u8>,
    header: TileHeader,
    packed: Vec<u8>,
}

impl<'a> View for TileParts<'a> {
    type V = PartsView;

    closed spec fn view(&self) -> PartsView {
        PartsView {
            parts: crate::tier2::packet::chunk_views(self.parts@),
            declared: self.declared,
            header: self.header@,
            packed: self.packed@,
        }
    }
}

/// What has been seen of every tile.
spec fn parts_views(s: Seq<TileParts<'_>>) -> Seq<PartsView> {
    Seq::new(s.len(), |i: int| s[i]@)
}

impl<'a> TileParts<'a> {
    /// A tile that nothing has been seen of.
    fn fresh() -> (t: Self)
        ensures
            t@ == PartsView::fresh(),
    {
        let t: TileParts<'a> = TileParts {
            parts: Vec::new(),
            declared: None,
            header: TileHeader::default(),
            packed: Vec::new(),
        };
        assert(t@.parts =~= PartsView::fresh().parts);
        t
    }

    /// Check that a tile-part is the next one of this tile.
    fn check_next(&self, sot: &Sot) -> (r: Result<()>)
        ensures
            match r {
                Ok(_) => self@.continues(*sot),
                Err(e) => {
                    &&& !self@.continues(*sot)
                    &&& e.kind() == ErrorKind::Codestream
                    &&& e.message() == self@.continues_text(*sot)
                },
            },
    {
        let tile: String = "tile ".to_string().concat(decimal(sot.tile_index as u64).as_str());
        if sot.tile_part_index as usize != self.parts.len() {
            return Err(
                Error::Codestream(
                    tile.concat(" tile-part index is ").concat(
                        decimal(sot.tile_part_index as u64).as_str(),
                    ).concat(", but ").concat(decimal(self.parts.len() as u64).as_str()).concat(
                        " of its tile-parts have been read",
                    ),
                ),
            );
        }
        if sot.num_tile_parts != 0 {
            if sot.tile_part_index >= sot.num_tile_parts {
                return Err(
                    Error::Codestream(
                        tile.concat(" tile-part ").concat(
                            decimal(sot.tile_part_index as u64).as_str(),
                        ).concat(" of a declared ").concat(
                            decimal(sot.num_tile_parts as u64).as_str(),
                        ).concat(" tile-parts"),
                    ),
                );
            }
            match self.declared {
                Some(declared) => {
                    if declared != sot.num_tile_parts {
                        return Err(
                            Error::Codestream(
                                tile.concat(" declares ").concat(
                                    decimal(sot.num_tile_parts as u64).as_str(),
                                ).concat(" tile-parts in one SOT and ").concat(
                                    decimal(declared as u64).as_str(),
                                ).concat(" in another"),
                            ),
                        );
                    }
                },
                None => {},
            }
        }
        Ok(())
    }

    /// Add one part.
    fn grow(&mut self, sot: &Sot, tile: TileHeader, packed: &[u8], data: &'a [u8])
        ensures
            final(self)@ == old(self)@.grown(*sot, tile@, packed@, data@),
    {
        let ghost before = self@;
        if sot.num_tile_parts != 0 {
            self.declared = Some(sot.num_tile_parts);
        }
        if sot.tile_part_index == 0 {
            self.header = tile;
        } else {
            append_volumes(&mut self.header.poc, &tile.poc);
        }
        append_slice(&mut self.packed, packed);
        self.parts.push(data);
        assert(self@.parts =~= before.parts.push(data@));
    }
}

/// Append progression volumes.
fn append_volumes(out: &mut Vec<PocVolume>, more: &Vec<PocVolume>)
    ensures
        final(out)@ == old(out)@ + more@,
{
    let mut i: usize = 0;
    while i < more.len()
        invariant
            i <= more@.len(),
            out@ == old(out)@ + more@.take(i as int),
        decreases more@.len() - i,
    {
        out.push(more[i]);
        assert(more@.take(i + 1) =~= more@.take(i as int).push(more@[i as int]));
        i = i + 1;
    }
    assert(more@.take(i as int) =~= more@);
}

/// The packed packet headers of tile-part `k`.
fn packed_headers(ppt: &Vec<(u8, Vec<u8>)>, chunks: &Vec<Vec<u8>>, k: usize) -> (r: Result<Vec<u8>>)
    ensures
        match r {
            Ok(v) => packed_spec(piece_views(ppt@), chunk_views(chunks@), k as int) == Ok::<
                Seq<u8>,
                ErrorKind,
            >(v@),
            Err(e) => {
                &&& packed_spec(piece_views(ppt@), chunk_views(chunks@), k as int) == Err::<
                    Seq<u8>,
                    ErrorKind,
                >(e.kind())
                &&& e.message() == packed_text(piece_views(ppt@), chunk_views(chunks@))
            },
        },
{
    if chunks.len() == 0 {
        return stitch(ppt, "PPT");
    }
    if ppt.len() > 0 {
        return Err(Error::Codestream("PPT appears beside PPM".to_string()));
    }
    if k >= chunks.len() {
        return Err(Error::Codestream("PPM has no packet headers for a tile-part".to_string()));
    }
    Ok(slice_to_vec(chunks[k].as_slice()))
}

/// Where a tile-part's data ends.
fn data_end(bytes: &[u8], at: usize, psot: u32, start: usize) -> (r: Result<usize>)
    requires
        at <= bytes@.len(),
        start <= bytes@.len(),
    ensures
        match r {
            Ok(end) => part_end(bytes@, at as int, psot, start as int) == Some(end as int),
            Err(e) => {
                &&& part_end(bytes@, at as int, psot, start as int) is None
                &&& e.kind() == ErrorKind::Codestream
                &&& e.message() == end_text(bytes@, at as int, psot)
            },
        },
{
    let len: usize = bytes.len();
    if psot == 0 {
        if len >= 2 && len - 2 >= start {
            match read_u16(bytes, len - 2) {
                Some(m) => {
                    if m == marker::EOC {
                        return Ok(len - 2);
                    }
                },
                None => {},
            }
        }
        return Err(Error::Codestream("Psot=0 tile-part is not terminated by EOC".to_string()));
    }
    if psot as u64 > (len - at) as u64 {
        return Err(Error::Codestream("Psot overruns the codestream".to_string()));
    }
    let end: usize = at + psot as usize;
    if end < start {
        return Err(Error::Codestream("Psot is shorter than the tile-part header".to_string()));
    }
    Ok(end)
}

/// Read tile-part `k`, whose SOT is at `at`. Returns where it ends.
fn read_tile_part<'a>(
    bytes: &'a [u8],
    at: usize,
    tiles: &mut Vec<TileParts<'a>>,
    siz: &Siz,
    chunks: &Vec<Vec<u8>>,
    k: usize,
) -> (r: Result<usize>)
    requires
        at <= bytes@.len(),
    ensures
        match r {
            Ok(end) => part_spec(
                bytes@,
                at as int,
                parts_views(old(tiles)@),
                siz@.components.len() as int,
                chunk_views(chunks@),
                k as int,
            ) == Ok::<(Seq<PartsView>, int), ErrorKind>((parts_views(final(tiles)@), end as int)),
            Err(e) => {
                &&& part_spec(
                    bytes@,
                    at as int,
                    parts_views(old(tiles)@),
                    siz@.components.len() as int,
                    chunk_views(chunks@),
                    k as int,
                ) == Err::<(Seq<PartsView>, int), ErrorKind>(e.kind())
                &&& e.message() == part_text(
                    bytes@,
                    at as int,
                    parts_views(old(tiles)@),
                    siz@.components.len() as int,
                    chunk_views(chunks@),
                    k as int,
                )
            },
        },
{
    let ghost before = parts_views(tiles@);
    let mut cur: Cursor<'a> = Cursor::at(bytes, at);
    if cur.u16()? != marker::SOT {
        return Err(Error::Codestream("tile-part does not start with SOT".to_string()));
    }
    let sot: Sot = decode_sot(segment(&mut cur)?)?;
    let index: usize = sot.tile_index as usize;
    if index >= tiles.len() {
        return Err(
            Error::Codestream(
                "tile-part names tile ".to_string().concat(decimal(index as u64).as_str()).concat(
                    ", but the grid holds ",
                ).concat(decimal(tiles.len() as u64).as_str()).concat(" tiles"),
            ),
        );
    }
    assert(before[index as int] == tiles@[index as int]@);
    tiles[index].check_next(&sot)?;
    let part: PartHeader = read_tile_part_header(&mut cur, siz, sot.tile_part_index == 0)?;
    let packed: Vec<u8> = packed_headers(&part.ppt, chunks, k)?;
    let end: usize = data_end(bytes, at, sot.psot, cur.pos)?;
    let data: &'a [u8] = slice_subrange(bytes, cur.pos, end);
    tiles[index].grow(&sot, part.tile, packed.as_slice(), data);
    proof {
        let after = parts_views(tiles@);
        let t = before[index as int].grown(sot, part@.tile, packed@, data@);
        assert(after =~= before.update(index as int, t));
    }
    Ok(end)
}

/// Join one tile over its parts. One part is borrowed, several are copied.
fn join_parts<'a>(index: u32, tile: TileParts<'a>) -> (t: Tile<'a>)
    requires
        tile@.parts.len() > 0,
    ensures
        t@ == (TileView {
            index,
            header: tile@.header,
            data: join(tile@.parts),
            packed_headers: tile@.packed,
        }),
{
    let ghost parts = tile@.parts;
    if tile.parts.len() == 1 {
        let only: &'a [u8] = tile.parts[0];
        proof {
            assert(parts.drop_last() =~= Seq::<Seq<u8>>::empty());
            assert(join(parts) == join(parts.drop_last()) + parts.last());
            assert(join(parts) =~= only@);
        }
        return Tile {
            index,
            header: tile.header,
            data: Cow::Borrowed(only),
            packed_headers: tile.packed,
        };
    }
    let mut data: Vec<u8> = Vec::new();
    let mut i: usize = 0;
    assert(parts.take(0) =~= Seq::<Seq<u8>>::empty());
    while i < tile.parts.len()
        invariant
            i <= parts.len(),
            parts == crate::tier2::packet::chunk_views(tile.parts@),
            data@ == join(parts.take(i as int)),
        decreases parts.len() - i,
    {
        let part: &'a [u8] = tile.parts[i];
        proof {
            assert(parts.take(i + 1).drop_last() =~= parts.take(i as int));
            assert(parts.take(i + 1).last() == part@);
        }
        append_slice(&mut data, part);
        i = i + 1;
    }
    assert(parts.take(i as int) =~= parts);
    Tile { index, header: tile.header, data: Cow::Owned(data), packed_headers: tile.packed }
}

/// Every tile's contents.
pub open spec fn tile_views(s: Seq<Tile<'_>>) -> Seq<TileView> {
    Seq::new(s.len(), |i: int| s[i]@)
}

/// Walk every tile-part from the first SOT to the closing EOC and gather them
/// into one tile per tile index. `chunks` holds the main header's packed packet
/// headers, one per tile-part in codestream order.
pub fn walk_tiles<'a>(
    bytes: &'a [u8],
    sot_offset: usize,
    main: &MainHeader,
    chunks: &Vec<Vec<u8>>,
) -> (r: Result<Vec<Tile<'a>>>)
    requires
        sot_offset <= bytes@.len(),
    ensures
        match r {
            Ok(tiles) => tiles_spec(
                bytes@,
                sot_offset as int,
                main@,
                chunk_views(chunks@),
            ) == Ok::<Seq<TileView>, ErrorKind>(tile_views(tiles@)),
            Err(e) => {
                &&& tiles_spec(
                    bytes@,
                    sot_offset as int,
                    main@,
                    chunk_views(chunks@),
                ) == Err::<Seq<TileView>, ErrorKind>(e.kind())
                &&& e.message() == tiles_text(
                    bytes@,
                    sot_offset as int,
                    main@,
                    chunk_views(chunks@),
                )
            },
        },
{
    let tile_count: u32 = main.siz.num_tiles();
    let ghost count = main@.siz.components.len() as int;
    let ghost views = chunk_views(chunks@);
    let ghost fresh = Seq::new(main@.siz.num_tiles() as nat, |i: int| PartsView::fresh());
    let mut tiles: Vec<TileParts<'a>> = Vec::new();
    let mut n: u32 = 0;
    while n < tile_count
        invariant
            n <= tile_count,
            tiles@.len() == n,
            forall|i: int| 0 <= i < n ==> (#[trigger] tiles@[i])@ == PartsView::fresh(),
        decreases tile_count - n,
    {
        tiles.push(TileParts::fresh());
        n = n + 1;
    }
    assert(parts_views(tiles@) =~= fresh);
    let mut at: usize = sot_offset;
    let mut k: usize = 0;
    let ghost goal = parts_from(bytes@, at as int, fresh, count, views, 0);
    let mut open: bool = true;
    while open
        invariant
            at <= bytes@.len(),
            k <= at,
            tiles@.len() == tile_count,
            count == main@.siz.components.len(),
            views == chunk_views(chunks@),
            fresh == Seq::new(main@.siz.num_tiles() as nat, |i: int| PartsView::fresh()),
            tile_count == main@.siz.num_tiles(),
            goal == parts_from(bytes@, sot_offset as int, fresh, count, views, 0),
            open ==> goal == parts_from(
                bytes@,
                at as int,
                parts_views(tiles@),
                count,
                views,
                k as int,
            ),
            open ==> parts_text(bytes@, sot_offset as int, fresh, count, views, 0) == parts_text(
                bytes@,
                at as int,
                parts_views(tiles@),
                count,
                views,
                k as int,
            ),
            !open ==> goal == Ok::<Seq<PartsView>, ErrorKind>(parts_views(tiles@)),
        decreases
                bytes@.len() - at + (if open {
                    1int
                } else {
                    0int
                }),
    {
        proof {
            lemma_part_end(
                bytes@,
                at as int,
                parts_views(tiles@),
                count,
                views,
                k as int,
            );
        }
        let ghost before = parts_views(tiles@);
        let end: usize = read_tile_part(bytes, at, &mut tiles, &main.siz, chunks, k)?;
        match read_u16(bytes, end) {
            Some(m) => {
                if m == marker::EOC {
                    open = false;
                } else if m == marker::SOT {
                    at = end;
                    k = k + 1;
                } else {
                    return Err(
                        Error::Codestream(
                            "expected SOT or EOC after a tile-part, found ".to_string().concat(
                                hex(m).as_str(),
                            ),
                        ),
                    );
                }
            },
            None => {
                return Err(Error::Codestream("missing EOC after the tile-part".to_string()));
            },
        }
    }
    let ghost done = parts_views(tiles@);
    let mut out: Vec<Tile<'a>> = Vec::new();
    let mut index: u32 = 0;
    while index < tile_count
        invariant
            index <= tile_count,
            tiles@.len() == tile_count,
            done.len() == tile_count,
            goal == Ok::<Seq<PartsView>, ErrorKind>(done),
            goal == parts_from(bytes@, sot_offset as int, fresh, count, views, 0),
            count == main@.siz.components.len(),
            views == chunk_views(chunks@),
            fresh == Seq::new(main@.siz.num_tiles() as nat, |i: int| PartsView::fresh()),
            forall|i: int| index <= i < tile_count ==> (#[trigger] tiles@[i])@ == done[i],
            out@.len() == index,
            forall|i: int| 0 <= i < index ==> (#[trigger] done[i]).complete(),
            first_incomplete(done, 0) == first_incomplete(done, index as int),
            forall|i: int|
                0 <= i < index ==> (#[trigger] out@[i])@ == (TileView {
                    index: i as u32,
                    header: done[i].header,
                    data: join(done[i].parts),
                    packed_headers: done[i].packed,
                }),
        decreases tile_count - index,
    {
        let mut tile: TileParts<'a> = TileParts::fresh();
        std::mem::swap(&mut tiles[index as usize], &mut tile);
        assert(tile@ == done[index as int]);
        if tile.parts.len() == 0 {
            assert(!done[index as int].complete());
            return Err(
                Error::Codestream(
                    "the codestream carries no tile-part for tile ".to_string().concat(
                        decimal(index as u64).as_str(),
                    ),
                ),
            );
        }
        match tile.declared {
            Some(declared) => {
                if declared as usize != tile.parts.len() {
                    assert(!done[index as int].complete());
                    return Err(
                        Error::Codestream(
                            "tile ".to_string().concat(decimal(index as u64).as_str()).concat(
                                " declares ",
                            ).concat(decimal(declared as u64).as_str()).concat(
                                " tile-parts but carries ",
                            ).concat(decimal(tile.parts.len() as u64).as_str()),
                        ),
                    );
                }
            },
            None => {},
        }
        assert(done[index as int].complete());
        out.push(join_parts(index, tile));
        index = index + 1;
    }
    proof {
        let expected = Seq::new(
            done.len(),
            |i: int|
                TileView {
                    index: i as u32,
                    header: done[i].header,
                    data: join(done[i].parts),
                    packed_headers: done[i].packed,
                },
        );
        assert(tile_views(out@) =~= expected);
    }
    Ok(out)
}

/// A tile-part header's overrides name components of the image.
proof fn lemma_header_in_range(p: PartHeaderView, b: Seq<u8>, pos: int, count: int, first: bool)
    requires
        p.tile.in_range(count),
    ensures
        p.absorb_from(b, pos, count, first) matches Ok(v) ==> v.0.tile.in_range(count),
    decreases max_int(0, b.len() - pos),
{
    let code = be16(b, pos) as u16;
    if pos < 0 || pos + 2 > b.len() || code == marker::SOD || !PartHeaderView::allows(code)
        || !segment_fits(b, pos + 2) {
    } else {
        match p.absorb(code, segment_body(b, pos + 2), count) {
            Ok(next) => {
                lemma_header_in_range(next, b, segment_end(b, pos + 2), count, first);
            },
            Err(_) => {},
        }
    }
}

/// Every tile's overrides name components of the image.
proof fn lemma_parts_in_range(
    b: Seq<u8>,
    at: int,
    tiles: Seq<PartsView>,
    count: int,
    chunks: Seq<Seq<u8>>,
    k: int,
)
    requires
        forall|i: int| 0 <= i < tiles.len() ==> (#[trigger] tiles[i]).header.in_range(count),
    ensures
        parts_from(b, at, tiles, count, chunks, k) matches Ok(done) ==> forall|i: int|
            0 <= i < done.len() ==> (#[trigger] done[i]).header.in_range(count),
        parts_from(b, at, tiles, count, chunks, k) matches Ok(done) ==> done.len() == tiles.len(),
    decreases max_int(0, b.len() - at),
{
    lemma_part_end(b, at, tiles, count, chunks, k);
    match part_spec(b, at, tiles, count, chunks, k) {
        Ok((next, end)) => {
            let sot = sot_spec(segment_body(b, at + 2));
            lemma_header_in_range(
                PartHeaderView::empty(),
                b,
                segment_end(b, at + 2),
                count,
                sot.tile_part_index == 0,
            );
            if end + 2 <= b.len() && be16(b, end) != marker::EOC && be16(b, end) == marker::SOT {
                lemma_parts_in_range(b, end, next, count, chunks, k + 1);
            }
        },
        Err(_) => {},
    }
}

/// The tiles of a codestream fill the grid, in order, and their overrides name
/// components of the image.
pub proof fn lemma_tiles_in_range(b: Seq<u8>, sot: int, h: HeaderView, chunks: Seq<Seq<u8>>)
    ensures
        tiles_spec(b, sot, h, chunks) matches Ok(tiles) ==> {
            &&& tiles.len() == max_int(0, h.siz.num_tiles())
            &&& forall|i: int|
                0 <= i < tiles.len() ==> (#[trigger] tiles[i]).header.in_range(
                    h.siz.components.len() as int,
                ) && tiles[i].index == i as u32
        },
{
    let fresh = Seq::new(h.siz.num_tiles() as nat, |i: int| PartsView::fresh());
    lemma_parts_in_range(b, sot, fresh, h.siz.components.len() as int, chunks, 0);
}

} // verus!
