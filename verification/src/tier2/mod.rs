//! Tier-2: packet decoding (ISO/IEC 15444-1 Annex B).
//!
//! A tile's data is a sequence of packets, one per layer, resolution, component
//! and precinct, in the tile's progression order. Each packet's header says which
//! code-blocks it contributes to, with how many coding passes and how many bytes;
//! its body holds the bytes. [`decode_packets`] parses all packets of one tile and
//! hands over the coded segments of every code-block.

pub mod bio;
pub mod codewords;
pub mod contributions;
pub mod entries;
pub mod framing;
pub mod geometry;
pub mod layout;
pub mod minima;
pub mod orders;
pub mod packet;
pub mod partition;
pub mod places;
pub mod progression;
pub mod sequence;
pub mod tagtree;
pub mod tile;


use crate::error::{fault, Error, ErrorKind, Result};
pub use geometry::{
    resolution_geoms, BandGeom, PrecinctGeom, ResolutionGeom, MAX_CODE_BLOCKS, MAX_PRECINCTS,
};
use geometry::BandView;
pub use tile::{decode_packets, packets_spec};
use packet::{
    chunk_views, state_views, BandState, BandStateView, BlockState, EntryView, SegmentState,
    SegmentView,
};
use vstd::prelude::*;
use vstd::slice::slice_to_vec;

verus! {

/// The four subband orientations.
#[derive(Debug, Clone, Copy, PartialEq, Eq, Structural)]
pub enum BandKind {
    /// Low-pass on both axes, the coarsest resolution only.
    Ll,
    /// High-pass horizontally, low-pass vertically.
    Hl,
    /// Low-pass horizontally, high-pass vertically.
    Lh,
    /// High-pass on both axes.
    Hh,
}

impl BandKind {
    /// The band's name, for an error message.
    pub open spec fn name_spec(&self) -> &'static str {
        match self {
            BandKind::Ll => "Ll",
            BandKind::Hl => "Hl",
            BandKind::Lh => "Lh",
            BandKind::Hh => "Hh",
        }
    }

    /// The band's name, for an error message.
    pub fn name(&self) -> (s: &'static str)
        ensures
            s@ == self.name_spec()@,
    {
        match self {
            BandKind::Ll => "Ll",
            BandKind::Hl => "Hl",
            BandKind::Lh => "Lh",
            BandKind::Hh => "Hh",
        }
    }
}

/// One codeword segment: its coding passes and the bytes that code them, chunk by
/// chunk.
pub struct CodedSegmentView {
    pub passes: nat,
    pub chunks: Seq<Seq<u8>>,
}

/// The chunks joined end to end.
pub open spec fn join(chunks: Seq<Seq<u8>>) -> Seq<u8>
    decreases chunks.len(),
{
    if chunks.len() == 0 {
        Seq::empty()
    } else {
        join(chunks.drop_last()) + chunks.last()
    }
}

/// One codeword segment. A layered codestream may deliver its bytes in several
/// chunks. Without per-pass termination a block has one segment.
#[derive(Debug, PartialEq, Eq)]
pub struct CodedSegment<'a> {
    pub passes: u32,
    pub chunks: Vec<&'a [u8]>,
}

impl<'a> View for CodedSegment<'a> {
    type V = CodedSegmentView;

    open spec fn view(&self) -> CodedSegmentView {
        CodedSegmentView { passes: self.passes as nat, chunks: chunk_views(self.chunks@) }
    }
}

impl<'a> CodedSegment<'a> {
    /// The segment's bytes, joined over the layers that carried them.
    pub fn bytes(&self) -> (b: Vec<u8>)
        ensures
            b@ == join(self@.chunks),
    {
        let mut out: Vec<u8> = Vec::new();
        let ghost views = chunk_views(self.chunks@);
        let mut i: usize = 0;
        assert(views.take(0) =~= Seq::<Seq<u8>>::empty());
        while i < self.chunks.len()
            invariant
                i <= self.chunks@.len(),
                views == chunk_views(self.chunks@),
                out@ == join(views.take(i as int)),
            decreases self.chunks@.len() - i,
        {
            let chunk: &[u8] = self.chunks[i];
            proof {
                assert(views.take(i + 1).drop_last() =~= views.take(i as int));
                assert(views.take(i + 1).last() == chunk@);
            }
            append_slice(&mut out, chunk);
            i = i + 1;
        }
        assert(views.take(i as int) =~= views);
        out
    }
}

/// Append a slice's bytes.
pub(crate) fn append_slice(out: &mut Vec<u8>, bytes: &[u8])
    ensures
        final(out)@ == old(out)@ + bytes@,
{
    let mut i: usize = 0;
    while i < bytes.len()
        invariant
            i <= bytes@.len(),
            out@ == old(out)@ + bytes@.take(i as int),
        decreases bytes@.len() - i,
    {
        out.push(bytes[i]);
        assert(bytes@.take(i + 1) =~= bytes@.take(i as int).push(bytes@[i as int]));
        i = i + 1;
    }
    assert(bytes@.take(i as int) =~= bytes@);
}

/// One code-block's coded contribution within its subband.
pub struct CodeBlockView {
    pub x: usize,
    pub y: usize,
    pub width: usize,
    pub height: usize,
    pub num_passes: nat,
    pub zero_bit_planes: nat,
    pub segments: Seq<CodedSegmentView>,
}

/// Every segment's view.
pub open spec fn coded_segment_views(s: Seq<CodedSegment<'_>>) -> Seq<CodedSegmentView> {
    Seq::new(s.len(), |i: int| s[i]@)
}

/// One code-block: its place and size within its subband, and its codeword
/// segments in order.
#[derive(Debug, PartialEq, Eq)]
pub struct CodeBlock<'a> {
    pub x: usize,
    pub y: usize,
    pub width: usize,
    pub height: usize,
    /// Coding passes over every layer that contributed.
    pub num_passes: u32,
    pub zero_bit_planes: u32,
    pub segments: Vec<CodedSegment<'a>>,
}

impl<'a> View for CodeBlock<'a> {
    type V = CodeBlockView;

    open spec fn view(&self) -> CodeBlockView {
        CodeBlockView {
            x: self.x,
            y: self.y,
            width: self.width,
            height: self.height,
            num_passes: self.num_passes as nat,
            zero_bit_planes: self.zero_bit_planes as nat,
            segments: coded_segment_views(self.segments@),
        }
    }
}

/// Every block's view.
pub open spec fn code_block_views(s: Seq<CodeBlock<'_>>) -> Seq<CodeBlockView> {
    Seq::new(s.len(), |i: int| s[i]@)
}

/// One subband and its coded blocks.
pub struct SubbandView {
    pub kind: BandKind,
    pub origin: (u32, u32),
    pub width: nat,
    pub height: nat,
    pub block_cols: nat,
    pub block_rows: nat,
    pub blocks: Seq<CodeBlockView>,
}

/// One subband: its orientation, tile-component origin and extent, and the
/// row-major code-block grid.
#[derive(Debug, PartialEq, Eq)]
pub struct Subband<'a> {
    pub kind: BandKind,
    /// Tile-component coordinate of the band's top-left sample.
    pub origin: (u32, u32),
    pub width: usize,
    pub height: usize,
    pub block_cols: usize,
    pub block_rows: usize,
    pub blocks: Vec<CodeBlock<'a>>,
}

impl<'a> View for Subband<'a> {
    type V = SubbandView;

    open spec fn view(&self) -> SubbandView {
        SubbandView {
            kind: self.kind,
            origin: self.origin,
            width: self.width as nat,
            height: self.height as nat,
            block_cols: self.block_cols as nat,
            block_rows: self.block_rows as nat,
            blocks: code_block_views(self.blocks@),
        }
    }
}

/// Every subband's view.
pub open spec fn subband_views(s: Seq<Subband<'_>>) -> Seq<SubbandView> {
    Seq::new(s.len(), |i: int| s[i]@)
}

/// One resolution's subbands in packet order: LL at the coarsest, HL, LH and HH at
/// every finer one.
#[derive(Debug, PartialEq, Eq)]
pub struct Resolution<'a> {
    pub subbands: Vec<Subband<'a>>,
}

impl<'a> View for Resolution<'a> {
    type V = Seq<SubbandView>;

    open spec fn view(&self) -> Seq<SubbandView> {
        subband_views(self.subbands@)
    }
}

/// Every resolution's subbands.
pub open spec fn resolution_bands(s: Seq<Resolution<'_>>) -> Seq<Seq<SubbandView>> {
    Seq::new(s.len(), |i: int| s[i]@)
}

/// One component's coded data, coarsest resolution first.
#[derive(Debug, PartialEq, Eq)]
pub struct ComponentCoded<'a> {
    pub resolutions: Vec<Resolution<'a>>,
}

impl<'a> View for ComponentCoded<'a> {
    type V = Seq<Seq<SubbandView>>;

    open spec fn view(&self) -> Seq<Seq<SubbandView>> {
        resolution_bands(self.resolutions@)
    }
}

/// Every component's coded data.
pub open spec fn component_views(s: Seq<ComponentCoded<'_>>) -> Seq<Seq<Seq<SubbandView>>> {
    Seq::new(s.len(), |i: int| s[i]@)
}

/// The coded segments of every code-block of every component, in SIZ order.
#[derive(Debug, PartialEq, Eq)]
pub struct CodedData<'a> {
    pub components: Vec<ComponentCoded<'a>>,
}

impl<'a> View for CodedData<'a> {
    type V = Seq<Seq<Seq<SubbandView>>>;

    open spec fn view(&self) -> Seq<Seq<Seq<SubbandView>>> {
        component_views(self.components@)
    }
}

/// The coded segment of an accumulated one.
pub open spec fn coded_segment(s: SegmentView) -> CodedSegmentView {
    CodedSegmentView { passes: s.passes, chunks: s.chunks }
}

/// The code-block of an accumulated state and its place in the band.
pub open spec fn coded_block(place: (usize, usize, usize, usize), e: EntryView) -> CodeBlockView {
    CodeBlockView {
        x: place.0,
        y: place.1,
        width: place.2,
        height: place.3,
        num_passes: e.num_passes,
        zero_bit_planes: e.zero_bit_planes,
        segments: Seq::new(e.segments.len(), |i: int| coded_segment(e.segments[i])),
    }
}

/// The subband of a band's geometry and its accumulated state.
pub open spec fn coded_band(b: BandView, s: BandStateView) -> SubbandView {
    SubbandView {
        kind: b.kind,
        origin: b.origin,
        width: b.width,
        height: b.height,
        block_cols: b.block_cols,
        block_rows: b.block_rows,
        blocks: Seq::new(b.blocks.len(), |i: int| coded_block(b.blocks[i], s.blocks[i])),
    }
}

/// A block took coding passes but no bytes from any layer.
pub open spec fn starved(e: EntryView) -> bool {
    e.num_passes > 0 && forall|i: int|
        0 <= i < e.segments.len() ==> (#[trigger] e.segments[i]).chunks.len() == 0
}

/// No block of the band is starved.
pub open spec fn band_fed(s: BandStateView) -> bool {
    forall|i: int| 0 <= i < s.blocks.len() ==> !starved(#[trigger] s.blocks[i])
}

/// What is said of a block that has passes and no bytes.
pub open spec fn starved_text() -> Seq<char> {
    "included code-block has coding passes but no coded bytes"@
}

/// No block of the bands is starved.
pub open spec fn bands_fed(s: Seq<BandStateView>) -> bool {
    forall|i: int| 0 <= i < s.len() ==> band_fed(#[trigger] s[i])
}

/// The subbands of one resolution.
pub open spec fn subbands_spec(bands: Seq<BandView>, states: Seq<BandStateView>) -> Seq<SubbandView> {
    Seq::new(bands.len(), |i: int| coded_band(bands[i], states[i]))
}

/// Whether a block took passes but no bytes.
fn is_starved(block: &BlockState<'_>) -> (r: bool)
    ensures
        r == starved(block@),
{
    if block.num_passes == 0 {
        return false;
    }
    let mut i: usize = 0;
    while i < block.segments.len()
        invariant
            i <= block.segments@.len(),
            block.num_passes > 0,
            forall|j: int| 0 <= j < i ==> (#[trigger] block@.segments[j]).chunks.len() == 0,
        decreases block.segments@.len() - i,
    {
        assert(block@.segments[i as int].chunks.len() == block.segments@[i as int].chunks@.len());
        if block.segments[i].chunks.len() != 0 {
            return false;
        }
        i = i + 1;
    }
    true
}

/// The code-block of an accumulated state.
fn build_block<'a>(place: (usize, usize, usize, usize), block: &BlockState<'a>) -> (b: CodeBlock<'a>)
    ensures
        b@ == coded_block(place, block@),
{
    let mut segments: Vec<CodedSegment<'a>> = Vec::new();
    while segments.len() < block.segments.len()
        invariant
            segments@.len() <= block.segments@.len(),
            forall|i: int|
                0 <= i < segments@.len() ==> (#[trigger] segments@[i])@ == coded_segment(
                    block@.segments[i],
                ),
        decreases block.segments@.len() - segments@.len(),
    {
        let s: &SegmentState<'a> = &block.segments[segments.len()];
        segments.push(
            CodedSegment { passes: s.passes, chunks: slice_to_vec(s.chunks.as_slice()) },
        );
    }
    let b = CodeBlock {
        x: place.0,
        y: place.1,
        width: place.2,
        height: place.3,
        num_passes: block.num_passes,
        zero_bit_planes: block.zero_bit_planes,
        segments,
    };
    assert(b@.segments =~= coded_block(place, block@).segments);
    b
}

/// Turn the accumulated state of one resolution into its subbands. A block that
/// took coding passes but no bytes from any layer is rejected.
pub fn build_subbands<'a>(bands: &Vec<BandGeom>, states: &Vec<BandState<'a>>) -> (r: Result<
    Vec<Subband<'a>>,
>)
    requires
        bands@.len() == states@.len(),
        forall|i: int|
            0 <= i < bands@.len() ==> (#[trigger] bands@[i])@.blocks.len()
                == states@[i]@.blocks.len(),
    ensures
        match r {
            Ok(subbands) => {
                &&& bands_fed(state_views(states@))
                &&& subband_views(subbands@) == subbands_spec(
                    geometry::band_views(bands@),
                    state_views(states@),
                )
            },
            Err(e) => {
                &&& e@ == fault(ErrorKind::Codestream, starved_text())
                &&& !bands_fed(state_views(states@))
            },
        },
{
    let ghost views = state_views(states@);
    let mut subbands: Vec<Subband<'a>> = Vec::new();
    while subbands.len() < bands.len()
        invariant
            bands@.len() == states@.len(),
            views == state_views(states@),
            forall|i: int|
                0 <= i < bands@.len() ==> (#[trigger] bands@[i])@.blocks.len()
                    == states@[i]@.blocks.len(),
            subbands@.len() <= bands@.len(),
            forall|i: int| 0 <= i < subbands@.len() ==> band_fed(#[trigger] views[i]),
            forall|i: int|
                0 <= i < subbands@.len() ==> (#[trigger] subbands@[i])@ == coded_band(
                    bands@[i]@,
                    views[i],
                ),
        decreases bands@.len() - subbands@.len(),
    {
        let n: usize = subbands.len();
        let band: &BandGeom = &bands[n];
        let state: &BandState<'a> = &states[n];
        assert(views[n as int] == state@);
        let mut blocks: Vec<CodeBlock<'a>> = Vec::new();
        while blocks.len() < band.blocks.len()
            invariant
                blocks@.len() <= band@.blocks.len(),
                band@.blocks.len() == state@.blocks.len(),
                n < views.len(),
                views == state_views(states@),
                views[n as int] == state@,
                forall|i: int| 0 <= i < blocks@.len() ==> !starved(#[trigger] state@.blocks[i]),
                forall|i: int|
                    0 <= i < blocks@.len() ==> (#[trigger] blocks@[i])@ == coded_block(
                        band@.blocks[i],
                        state@.blocks[i],
                    ),
            decreases band@.blocks.len() - blocks@.len(),
        {
            let i: usize = blocks.len();
            assert(state@.blocks[i as int] == state.blocks@[i as int]@);
            if is_starved(&state.blocks[i]) {
                assert(!band_fed(views[n as int]));
                return Err(
                    Error::Codestream(
                        "included code-block has coding passes but no coded bytes".to_string(),
                    ),
                );
            }
            blocks.push(build_block(band.blocks[i], &state.blocks[i]));
        }
        let sub = Subband {
            kind: band.kind,
            origin: band.origin,
            width: band.width,
            height: band.height,
            block_cols: band.block_cols,
            block_rows: band.block_rows,
            blocks,
        };
        assert(sub@.blocks =~= coded_band(band@, state@).blocks);
        subbands.push(sub);
    }
    assert(subband_views(subbands@) =~= subbands_spec(geometry::band_views(bands@), views));
    Ok(subbands)
}

} // verus!
