//! Packet parsing (ISO/IEC 15444-1 B.9 and B.10): one packet's header and body
//! into the state of the code-blocks it contributes to.
//!
//! A code-block's contributions accumulate over the layers that include it, so a
//! precinct's tag trees and every block's state outlive any one packet.

use super::bio::{lemma_bit_wf, lemma_bits_bound, BitReader, BitState};
use super::geometry::{BandGeom, BandView, PrecinctGeom, PrecinctView};
use super::tagtree::{TagTree, TreeView};
use crate::codestream::markers::code_block_style::{LAZY, TERMALL};
use crate::codestream::cursor::be16;
use crate::error::{fault, Error, ErrorKind, Fault, Result};
use crate::math::min_int;
use crate::text::{decimal, decimal_text};
use vstd::prelude::*;
use vstd::slice::slice_subrange;

verus! {

/// Ceiling on the zero bit-plane count: one above the largest value that a
/// conformant codestream can signal, 37 magnitude planes and a maxshift of 255.
pub const ZBP_LIMIT: u32 = 293;

/// Ceiling on the length indicator, which keeps every length field within 31 bits.
pub const LBLOCK_MAX: u32 = 24;

/// The SOP marker.
pub const SOP_MARKER: u16 = 0xFF91;

/// The EPH marker.
pub const EPH_MARKER: u16 = 0xFF92;

/// Which packet delimiters are signalled.
#[derive(Debug, Clone, Copy, PartialEq, Eq, Structural)]
pub struct Delimiters {
    /// SOP may precede each packet.
    pub sop: bool,
    /// EPH follows each packet header.
    pub eph: bool,
}

/// A codeword segment while it is filled from successive layers.
pub struct SegmentView {
    pub passes: nat,
    pub max_passes: nat,
    pub chunks: Seq<Seq<u8>>,
}

/// A code-block's state across the layers of its precinct.
pub struct EntryView {
    pub included: bool,
    pub lblock: nat,
    pub zero_bit_planes: nat,
    pub num_passes: nat,
    pub segments: Seq<SegmentView>,
}

/// The two tag trees of a precinct on one subband.
pub struct TreesView {
    pub inclusion: TreeView,
    pub zero_bits: TreeView,
}

/// A subband's state across the layers.
pub struct BandStateView {
    pub precincts: Seq<TreesView>,
    pub blocks: Seq<EntryView>,
}

/// What one codeword segment takes from a packet's body.
pub struct TakeView {
    pub band: int,
    pub block: int,
    pub segment: int,
    pub len: nat,
}

/// How many coding passes the next codeword segment may hold. One where every
/// pass terminates; 10, 2, 1, 2, 1, ... in the bypass mode, which terminates where
/// raw and arithmetic-coded passes meet; otherwise more than a block can carry.
pub open spec fn segment_limit(style: u8, segments: Seq<SegmentView>) -> nat {
    if style & TERMALL != 0 {
        1
    } else if style & LAZY != 0 {
        if segments.len() == 0 {
            10
        } else if segments.last().max_passes == 1 || segments.last().max_passes == 10 {
            2
        } else {
            1
        }
    } else {
        109
    }
}

/// The number of coding passes of a contribution (ISO/IEC 15444-1 Table B.4).
pub open spec fn pass_count(bits: BitState) -> (nat, BitState) {
    let (b, bits) = bits.bit();
    if b == 0 {
        (1, bits)
    } else {
        let (b, bits) = bits.bit();
        if b == 0 {
            (2, bits)
        } else {
            let (n, bits) = bits.bits(2);
            if n != 3 {
                (3 + n, bits)
            } else {
                let (n, bits) = bits.bits(5);
                if n != 31 {
                    (6 + n, bits)
                } else {
                    let (n, bits) = bits.bits(7);
                    (37 + n, bits)
                }
            }
        }
    }
}

/// The length indicator after its unary increment, unless that runs too long.
pub open spec fn grow_lblock(lblock: nat, bits: BitState) -> core::result::Result<
    (nat, BitState),
    Fault,
>
    decreases LBLOCK_MAX + 1 - lblock,
{
    let (b, bits) = bits.bit();
    if b != 1 {
        Ok((lblock, bits))
    } else if lblock >= LBLOCK_MAX {
        Err(fault(ErrorKind::Codestream, "Lblock indicator runs too long"@))
    } else {
        grow_lblock(lblock + 1, bits)
    }
}

/// The integer part of the base-2 logarithm.
pub open spec fn floor_log2(n: nat) -> nat
    decreases n,
{
    if n <= 1 {
        0
    } else {
        1 + floor_log2(n / 2)
    }
}

/// A packet header while one band of it is read.
pub struct HeaderState {
    pub trees: TreesView,
    pub blocks: Seq<EntryView>,
    pub bits: BitState,
    pub takes: Seq<TakeView>,
}

/// The segments with one that can take passes at the end.
pub open spec fn open_segment(style: u8, segments: Seq<SegmentView>) -> Seq<SegmentView> {
    if segments.len() == 0 || segments.last().passes >= segments.last().max_passes {
        segments.push(
            SegmentView {
                passes: 0,
                max_passes: segment_limit(style, segments),
                chunks: Seq::empty(),
            },
        )
    } else {
        segments
    }
}

/// Hand `left` passes to codeword segments in turn. Each has a length field of
/// its own, as wide as the length indicator and the logarithm of the passes that
/// it takes.
pub open spec fn fill_segments(
    s: HeaderState,
    style: u8,
    band: int,
    block: int,
    left: nat,
) -> HeaderState
    decreases left,
{
    let entry = s.blocks[block];
    let segments = open_segment(style, entry.segments);
    let i = segments.len() - 1;
    let seg = segments[i];
    let taken = min_int(left as int, seg.max_passes - seg.passes) as nat;
    if left == 0 || taken == 0 {
        s
    } else {
        let (len, bits) = s.bits.bits(entry.lblock + floor_log2(taken));
        let segments = segments.update(i, SegmentView { passes: seg.passes + taken, ..seg });
        fill_segments(
            HeaderState {
                blocks: s.blocks.update(block, EntryView { segments, ..entry }),
                bits,
                takes: if len > 0 {
                    s.takes.push(TakeView { band, block, segment: i, len })
                } else {
                    s.takes
                },
                ..s
            },
            style,
            band,
            block,
            (left - taken) as nat,
        )
    }
}

/// Passes accumulate, held to `u32`.
pub open spec fn add_passes(a: nat, b: nat) -> nat {
    min_int((a + b) as int, u32::MAX as int) as nat
}

/// A contributing block's fields: the pass count, the length indicator, and the
/// lengths of the segments that share the passes.
pub open spec fn contribution_spec(
    s: HeaderState,
    style: u8,
    band: int,
    block: int,
) -> core::result::Result<HeaderState, Fault> {
    let (passes, bits) = pass_count(s.bits);
    let entry = s.blocks[block];
    match grow_lblock(entry.lblock, bits) {
        Err(e) => Err(e),
        Ok((lblock, bits)) => Ok(
            fill_segments(
                HeaderState {
                    blocks: s.blocks.update(
                        block,
                        EntryView {
                            lblock,
                            num_passes: add_passes(entry.num_passes, passes),
                            ..entry
                        },
                    ),
                    bits,
                    ..s
                },
                style,
                band,
                block,
                passes,
            ),
        ),
    }
}

/// One block's entry in a packet header, at `(x, y)` of its precinct. A block that
/// an earlier layer included signals its contribution with one bit; another is
/// resolved by the inclusion tree, and its zero bit-planes by the other one.
pub open spec fn entry_spec(
    s: HeaderState,
    layer: u32,
    style: u8,
    band: int,
    block: int,
    x: nat,
    y: nat,
) -> core::result::Result<HeaderState, Fault> {
    let entry = s.blocks[block];
    if entry.included {
        let (b, bits) = s.bits.bit();
        let s = HeaderState { bits, ..s };
        if b == 1 {
            contribution_spec(s, style, band, block)
        } else {
            Ok(s)
        }
    } else {
        let (first, inclusion, bits) = s.trees.inclusion.read(x, y, (layer + 1) as u32, s.bits);
        let s = HeaderState { trees: TreesView { inclusion, ..s.trees }, bits, ..s };
        match first {
            None => Ok(s),
            Some(_) => {
                let (planes, zero_bits, bits) = s.trees.zero_bits.read(x, y, ZBP_LIMIT, s.bits);
                match planes {
                    None => Err(
                        fault(ErrorKind::Codestream, "zero-bitplane count exceeds the limit"@),
                    ),
                    Some(n) => contribution_spec(
                        HeaderState {
                            trees: TreesView { zero_bits, ..s.trees },
                            blocks: s.blocks.update(
                                block,
                                EntryView { included: true, zero_bit_planes: n as nat, ..entry },
                            ),
                            bits,
                            ..s
                        },
                        style,
                        band,
                        block,
                    ),
                }
            },
        }
    }
}

/// The entries of a precinct's blocks from entry `i` on, in raster order within
/// the precinct.
pub open spec fn entries_spec(
    s: HeaderState,
    layer: u32,
    style: u8,
    band: int,
    precinct: PrecinctView,
    i: int,
) -> core::result::Result<HeaderState, Fault>
    decreases precinct.blocks.len() - i,
{
    if !(0 <= i < precinct.blocks.len()) {
        Ok(s)
    } else {
        let cols = precinct.cols as int;
        match entry_spec(
            s,
            layer,
            style,
            band,
            precinct.blocks[i] as int,
            (i % cols) as nat,
            (i / cols) as nat,
        ) {
            Ok(next) => entries_spec(next, layer, style, band, precinct, i + 1),
            Err(e) => Err(e),
        }
    }
}

/// The two byte streams that a packet is read from, with a position in each. They
/// are one unless the headers are packed apart from the data.
pub struct StreamsView {
    pub header: Seq<u8>,
    pub header_pos: nat,
    pub data: Seq<u8>,
    pub body_pos: nat,
    pub packed: bool,
}

/// The marker at `pos`, if the data reaches that far.
pub open spec fn marker_at(data: Seq<u8>, pos: int) -> Option<u16> {
    if 0 <= pos && pos + 1 < data.len() {
        Some((data[pos] * 256 + data[pos + 1]) as u16)
    } else {
        None
    }
}

/// Where the packet starts after an SOP marker segment at `pos`: its length is 4
/// and its sequence number is that of the packet, modulo 65536.
pub open spec fn sop_spec(data: Seq<u8>, pos: int, index: u32) -> core::result::Result<
    int,
    Fault,
> {
    let (length, number) = (be16(data, pos + 2), be16(data, pos + 4));
    if pos + 6 > data.len() {
        Err(fault(ErrorKind::Codestream, "truncated SOP marker segment"@))
    } else if length != 4 {
        Err(
            fault(
                ErrorKind::Codestream,
                "SOP declares Lsop "@ + decimal_text(length as nat) + ", expected 4"@,
            ),
        )
    } else if number != index % 65536 {
        Err(
            fault(
                ErrorKind::Codestream,
                "SOP sequence number "@ + decimal_text(number as nat) + " for packet "@
                    + decimal_text(index as nat) + ", expected "@ + decimal_text(
                    (index % 65536) as nat,
                ),
            ),
        )
    } else {
        Ok(pos + 6)
    }
}

/// The header bits and the states while a packet's bands are read.
pub struct PacketState {
    pub states: Seq<BandStateView>,
    pub bits: BitState,
    pub takes: Seq<TakeView>,
}

/// The bands of a packet header from band `i` on.
pub open spec fn bands_spec(
    s: PacketState,
    layer: u32,
    style: u8,
    bands: Seq<BandView>,
    precinct: int,
    i: int,
) -> core::result::Result<PacketState, Fault>
    decreases bands.len() - i,
{
    if !(0 <= i < bands.len()) {
        Ok(s)
    } else {
        let state = s.states[i];
        match entries_spec(
            HeaderState {
                trees: state.precincts[precinct],
                blocks: state.blocks,
                bits: s.bits,
                takes: s.takes,
            },
            layer,
            style,
            i,
            bands[i].precincts[precinct],
            0,
        ) {
            Err(e) => Err(e),
            Ok(h) => bands_spec(
                PacketState {
                    states: s.states.update(
                        i,
                        BandStateView {
                            precincts: state.precincts.update(precinct, h.trees),
                            blocks: h.blocks,
                        },
                    ),
                    bits: h.bits,
                    takes: h.takes,
                },
                layer,
                style,
                bands,
                precinct,
                i + 1,
            ),
        }
    }
}

/// A segment's bytes are filed with it.
pub open spec fn file_chunk(states: Seq<BandStateView>, t: TakeView, chunk: Seq<u8>) -> Seq<
    BandStateView,
> {
    let state = states[t.band];
    let entry = state.blocks[t.block];
    let seg = entry.segments[t.segment];
    states.update(
        t.band,
        BandStateView {
            blocks: state.blocks.update(
                t.block,
                EntryView {
                    segments: entry.segments.update(
                        t.segment,
                        SegmentView { chunks: seg.chunks.push(chunk), ..seg },
                    ),
                    ..entry
                },
            ),
            ..state
        },
    )
}

/// The body of a packet from take `i` on: each takes its bytes in turn.
pub open spec fn body_spec(
    states: Seq<BandStateView>,
    data: Seq<u8>,
    pos: int,
    takes: Seq<TakeView>,
    i: int,
) -> core::result::Result<(Seq<BandStateView>, int), Fault>
    decreases takes.len() - i,
{
    if !(0 <= i < takes.len()) {
        Ok((states, pos))
    } else if pos + takes[i].len > data.len() {
        Err(fault(ErrorKind::Codestream, "packet body segment overruns the tile-part"@))
    } else {
        body_spec(
            file_chunk(states, takes[i], data.subrange(pos, pos + takes[i].len)),
            data,
            pos + takes[i].len,
            takes,
            i + 1,
        )
    }
}

/// One packet: an optional SOP, the header, an EPH if it is signalled, and the
/// body. Returns the streams and the states after it.
pub open spec fn packet_spec(
    st: StreamsView,
    layer: u32,
    index: u32,
    delimiters: Delimiters,
    style: u8,
    bands: Seq<BandView>,
    precinct: int,
    states: Seq<BandStateView>,
) -> core::result::Result<(StreamsView, Seq<BandStateView>), Fault> {
    let start = if delimiters.sop && marker_at(st.data, st.body_pos as int) == Some(SOP_MARKER) {
        sop_spec(st.data, st.body_pos as int, index)
    } else {
        Ok(st.body_pos as int)
    };
    match start {
        Err(e) => Err(e),
        Ok(body) => {
            let head = if st.packed { st.header_pos as int } else { body };
            if head >= st.header.len() {
                Err(fault(ErrorKind::Codestream, "tile-part ends before the last packet"@))
            } else {
                let (present, bits) = BitState::init(
                    st.header.subrange(head, st.header.len() as int),
                ).bit();
                let first = PacketState { states, bits, takes: Seq::empty() };
                let read = if present == 1 {
                    bands_spec(first, layer, style, bands, precinct, 0)
                } else {
                    Ok(first)
                };
                match read {
                    Err(e) => Err(e),
                    Ok(p) => {
                        let head = head + p.bits.align().consumed();
                        if delimiters.eph && marker_at(st.header, head) != Some(EPH_MARKER) {
                            Err(
                                fault(
                                    ErrorKind::Codestream,
                                    "COD signals EPH but the packet header is not followed by one"@,
                                ),
                            )
                        } else {
                            let head = if delimiters.eph { head + 2 } else { head };
                            let body = if st.packed { body } else { head };
                            match body_spec(p.states, st.data, body, p.takes, 0) {
                                Err(e) => Err(e),
                                Ok((states, end)) => Ok(
                                    (
                                        StreamsView {
                                            header_pos: (if st.packed {
                                                head
                                            } else {
                                                end
                                            }) as nat,
                                            body_pos: end as nat,
                                            ..st
                                        },
                                        states,
                                    ),
                                ),
                            }
                        }
                    },
                }
            }
        },
    }
}

/// A codeword segment while it is filled.
#[derive(Debug)]
pub struct SegmentState<'a> {
    pub passes: u32,
    /// How many passes the segment may hold before the next one starts.
    pub max_passes: u32,
    pub chunks: Vec<&'a [u8]>,
}

/// The bytes of every chunk.
pub open spec fn chunk_views(s: Seq<&[u8]>) -> Seq<Seq<u8>> {
    Seq::new(s.len(), |i: int| s[i]@)
}

impl<'a> View for SegmentState<'a> {
    type V = SegmentView;

    open spec fn view(&self) -> SegmentView {
        SegmentView {
            passes: self.passes as nat,
            max_passes: self.max_passes as nat,
            chunks: chunk_views(self.chunks@),
        }
    }
}

/// Every segment's view.
pub open spec fn segment_views(s: Seq<SegmentState<'_>>) -> Seq<SegmentView> {
    Seq::new(s.len(), |i: int| s[i]@)
}

/// One code-block's state, carried across the layers of its precinct. The length
/// indicator and the zero bit-planes persist; the passes and segments accumulate.
#[derive(Debug)]
pub struct BlockState<'a> {
    pub included: bool,
    /// Width of the length indicator.
    pub lblock: u32,
    pub zero_bit_planes: u32,
    /// Coding passes over every layer that contributed.
    pub num_passes: u32,
    /// Codeword segments in order; the last one may still take passes.
    pub segments: Vec<SegmentState<'a>>,
}

impl<'a> View for BlockState<'a> {
    type V = EntryView;

    open spec fn view(&self) -> EntryView {
        EntryView {
            included: self.included,
            lblock: self.lblock as nat,
            zero_bit_planes: self.zero_bit_planes as nat,
            num_passes: self.num_passes as nat,
            segments: segment_views(self.segments@),
        }
    }
}

/// Every block's view.
pub open spec fn block_views(s: Seq<BlockState<'_>>) -> Seq<EntryView> {
    Seq::new(s.len(), |i: int| s[i]@)
}

/// A block that no packet has touched.
pub open spec fn fresh_entry() -> EntryView {
    EntryView {
        included: false,
        lblock: 3,
        zero_bit_planes: 0,
        num_passes: 0,
        segments: Seq::empty(),
    }
}

impl<'a> BlockState<'a> {
    /// A block that no packet has touched.
    pub fn new() -> (b: Self)
        ensures
            b@ == fresh_entry(),
    {
        let b = BlockState {
            included: false,
            lblock: 3,
            zero_bit_planes: 0,
            num_passes: 0,
            segments: Vec::new(),
        };
        assert(b@.segments =~= fresh_entry().segments);
        b
    }
}

/// The two tag trees that one precinct runs over one subband.
#[derive(Debug)]
pub struct PrecinctState {
    pub inclusion: TagTree,
    pub zero_bits: TagTree,
}

impl View for PrecinctState {
    type V = TreesView;

    open spec fn view(&self) -> TreesView {
        TreesView { inclusion: self.inclusion@, zero_bits: self.zero_bits@ }
    }
}

/// Every precinct's trees.
pub open spec fn trees_views(s: Seq<PrecinctState>) -> Seq<TreesView> {
    Seq::new(s.len(), |i: int| s[i]@)
}

/// One subband's state across the layers: a pair of tag trees per precinct and a
/// state per code-block of the band.
#[derive(Debug)]
pub struct BandState<'a> {
    pub precincts: Vec<PrecinctState>,
    pub blocks: Vec<BlockState<'a>>,
}

impl<'a> View for BandState<'a> {
    type V = BandStateView;

    open spec fn view(&self) -> BandStateView {
        BandStateView {
            precincts: trees_views(self.precincts@),
            blocks: block_views(self.blocks@),
        }
    }
}

/// Every band's state.
pub open spec fn state_views(s: Seq<BandState<'_>>) -> Seq<BandStateView> {
    Seq::new(s.len(), |i: int| s[i]@)
}

/// A precinct's grid of blocks lies within a band of `n` blocks.
pub open spec fn precinct_shape(p: PrecinctView, n: nat) -> bool {
    &&& p.blocks.len() == p.cols * p.rows
    &&& p.cols * p.rows <= u32::MAX
    &&& p.cols <= u32::MAX
    &&& p.rows <= u32::MAX
    &&& forall|m: int| 0 <= m < p.blocks.len() ==> #[trigger] p.blocks[m] < n
}

/// Every precinct's grid lies within the band.
pub open spec fn band_shape(b: BandView) -> bool {
    forall|k: int|
        0 <= k < b.precincts.len() ==> precinct_shape(#[trigger] b.precincts[k], b.blocks.len())
}

/// The trees have a leaf for every block of the precinct.
pub open spec fn trees_fit(t: TreesView, p: PrecinctView) -> bool {
    &&& t.inclusion.wf()
    &&& t.inclusion.width == p.cols
    &&& t.inclusion.height == p.rows
    &&& t.zero_bits.wf()
    &&& t.zero_bits.width == p.cols
    &&& t.zero_bits.height == p.rows
}

/// No segment holds more passes than it may, and the length indicator is within
/// its ceiling.
pub open spec fn entry_ok(e: EntryView) -> bool {
    &&& e.lblock <= LBLOCK_MAX
    &&& forall|i: int|
        0 <= i < e.segments.len() ==> {
            let seg = #[trigger] e.segments[i];
            seg.passes <= seg.max_passes <= 109
        }
}

/// A band's state is one for its geometry.
pub open spec fn state_fits(s: BandStateView, b: BandView) -> bool {
    &&& band_shape(b)
    &&& s.blocks.len() == b.blocks.len()
    &&& s.precincts.len() == b.precincts.len()
    &&& forall|k: int|
        0 <= k < b.precincts.len() ==> trees_fit(#[trigger] s.precincts[k], b.precincts[k])
    &&& forall|i: int| 0 <= i < s.blocks.len() ==> entry_ok(#[trigger] s.blocks[i])
}

/// The state of a band before any packet.
pub open spec fn fresh_state(b: BandView) -> BandStateView {
    BandStateView {
        precincts: Seq::new(b.precincts.len(), |k: int| fresh_trees(b.precincts[k])),
        blocks: Seq::new(b.blocks.len(), |i: int| fresh_entry()),
    }
}

/// The trees of a precinct before any packet.
pub open spec fn fresh_trees(p: PrecinctView) -> TreesView {
    TreesView {
        inclusion: TreeView::fresh(p.cols, p.rows),
        zero_bits: TreeView::fresh(p.cols, p.rows),
    }
}

impl<'a> BandState<'a> {
    /// The state of a band before any packet.
    pub fn new(band: &BandGeom) -> (s: Self)
        requires
            band_shape(band@),
        ensures
            s@ == fresh_state(band@),
            state_fits(s@, band@),
    {
        let mut precincts: Vec<PrecinctState> = Vec::new();
        while precincts.len() < band.precincts.len()
            invariant
                band_shape(band@),
                precincts@.len() <= band@.precincts.len(),
                band@.precincts.len() == band.precincts@.len(),
                forall|k: int|
                    0 <= k < precincts@.len() ==> trees_fit(
                        (#[trigger] precincts@[k])@,
                        band@.precincts[k],
                    ) && precincts@[k]@ == fresh_trees(band@.precincts[k]),
            decreases band@.precincts.len() - precincts@.len(),
        {
            let p: &PrecinctGeom = &band.precincts[precincts.len()];
            assert(band@.precincts[precincts@.len() as int] == p@);
            precincts.push(
                PrecinctState {
                    inclusion: TagTree::new(p.cols as u32, p.rows as u32),
                    zero_bits: TagTree::new(p.cols as u32, p.rows as u32),
                },
            );
        }
        let mut blocks: Vec<BlockState<'a>> = Vec::new();
        while blocks.len() < band.blocks.len()
            invariant
                blocks@.len() <= band@.blocks.len(),
                band@.blocks.len() == band.blocks@.len(),
                forall|k: int| 0 <= k < blocks@.len() ==> (#[trigger] blocks@[k])@ == fresh_entry(),
            decreases band@.blocks.len() - blocks@.len(),
        {
            blocks.push(BlockState::new());
        }
        let state = BandState { precincts, blocks };
        assert(state@.precincts =~= fresh_state(band@).precincts);
        assert(state@.blocks =~= fresh_state(band@).blocks);
        state
    }
}

/// What one codeword segment takes from a packet's body.
#[derive(Debug, Clone, Copy)]
pub struct Contribution {
    pub band: usize,
    pub block: usize,
    pub segment: usize,
    pub seg_len: usize,
}

impl View for Contribution {
    type V = TakeView;

    open spec fn view(&self) -> TakeView {
        TakeView {
            band: self.band as int,
            block: self.block as int,
            segment: self.segment as int,
            len: self.seg_len as nat,
        }
    }
}

/// Every contribution's view.
pub open spec fn take_views(s: Seq<Contribution>) -> Seq<TakeView> {
    Seq::new(s.len(), |i: int| s[i]@)
}

/// Read the number of coding passes.
pub fn read_num_passes(bio: &mut BitReader<'_>) -> (n: u32)
    requires
        old(bio)@.wf(),
    ensures
        (n as nat, final(bio)@) == pass_count(old(bio)@),
        final(bio)@.wf(),
        final(bio)@.data == old(bio)@.data,
        1 <= n <= 164,
{
    proof {
        lemma_bit_wf(bio@);
    }
    if bio.read_bit() == 0 {
        return 1;
    }
    proof {
        lemma_bit_wf(bio@);
    }
    if bio.read_bit() == 0 {
        return 2;
    }
    proof {
        vstd::arithmetic::power2::lemma2_to64();
        lemma_bits_bound(bio@, 2);
    }
    let n: u32 = bio.read(2);
    if n != 3 {
        return 3 + n;
    }
    proof {
        lemma_bits_bound(bio@, 5);
    }
    let n: u32 = bio.read(5);
    if n != 31 {
        return 6 + n;
    }
    proof {
        lemma_bits_bound(bio@, 7);
    }
    let n: u32 = bio.read(7);
    37 + n
}

/// How many coding passes the next codeword segment may hold.
fn segment_max_passes(style: u8, segments: &Vec<SegmentState<'_>>) -> (n: u32)
    ensures
        n == segment_limit(style, segment_views(segments@)),
        1 <= n <= 109,
{
    if style & TERMALL != 0 {
        1
    } else if style & LAZY != 0 {
        if segments.len() == 0 {
            10
        } else {
            let prev: u32 = segments[segments.len() - 1].max_passes;
            assert(segment_views(segments@).last() == segments@.last()@);
            if prev == 1 || prev == 10 {
                2
            } else {
                1
            }
        }
    } else {
        109
    }
}

/// The integer part of the base-2 logarithm.
fn ilog2(n: u32) -> (r: u32)
    requires
        1 <= n <= 255,
    ensures
        r == floor_log2(n as nat),
        r <= 7,
{
    proof {
        reveal_with_fuel(floor_log2, 9);
    }
    if n < 2 {
        0
    } else if n < 4 {
        1
    } else if n < 8 {
        2
    } else if n < 16 {
        3
    } else if n < 32 {
        4
    } else if n < 64 {
        5
    } else if n < 128 {
        6
    } else {
        7
    }
}

/// The header state of a band's blocks of which one is at hand.
spec fn header_state(
    trees: TreesView,
    base: Seq<EntryView>,
    index: int,
    block: EntryView,
    bits: BitState,
    takes: Seq<TakeView>,
) -> HeaderState {
    HeaderState { trees, blocks: base.update(index, block), bits, takes }
}

/// Hand `passes` passes to the block's codeword segments, reading each one's
/// length.
fn read_segments<'a>(
    block: &mut BlockState<'a>,
    style: u8,
    band: usize,
    index: usize,
    passes: u32,
    bio: &mut BitReader<'_>,
    contributions: &mut Vec<Contribution>,
    Ghost(trees): Ghost<TreesView>,
    Ghost(base): Ghost<Seq<EntryView>>,
)
    requires
        old(bio)@.wf(),
        entry_ok(old(block)@),
        index < base.len(),
        passes <= 164,
    ensures
        fill_segments(
            header_state(
                trees,
                base,
                index as int,
                old(block)@,
                old(bio)@,
                take_views(old(contributions)@),
            ),
            style,
            band as int,
            index as int,
            passes as nat,
        ) == header_state(
            trees,
            base,
            index as int,
            final(block)@,
            final(bio)@,
            take_views(final(contributions)@),
        ),
        final(bio)@.wf(),
        final(bio)@.data == old(bio)@.data,
        entry_ok(final(block)@),
        final(block)@.segments.len() >= old(block)@.segments.len(),
        final(contributions)@.len() >= old(contributions)@.len(),
        forall|k: int|
            0 <= k < old(contributions)@.len() ==> #[trigger] final(contributions)@[k] == old(
                contributions,
            )@[k],
        forall|k: int|
            old(contributions)@.len() <= k < final(contributions)@.len() ==> {
                let t = #[trigger] final(contributions)@[k];
                t.band == band && t.block == index && t.segment < final(block)@.segments.len()
            },
{
    let ghost goal = fill_segments(
        header_state(trees, base, index as int, block@, bio@, take_views(contributions@)),
        style,
        band as int,
        index as int,
        passes as nat,
    );
    let mut left: u32 = passes;
    while left > 0
        invariant
            bio@.wf(),
            bio@.data == old(bio)@.data,
            entry_ok(block@),
            index < base.len(),
            left <= passes <= 164,
            block@.segments.len() >= old(block)@.segments.len(),
            contributions@.len() >= old(contributions)@.len(),
            forall|k: int|
                0 <= k < old(contributions)@.len() ==> #[trigger] contributions@[k] == old(
                    contributions,
                )@[k],
            forall|k: int|
                old(contributions)@.len() <= k < contributions@.len() ==> {
                    let t = #[trigger] contributions@[k];
                    t.band == band && t.block == index && t.segment < block@.segments.len()
                },
            fill_segments(
                header_state(trees, base, index as int, block@, bio@, take_views(contributions@)),
                style,
                band as int,
                index as int,
                left as nat,
            ) == goal,
        decreases left,
    {
        let ghost entry = block@;
        let ghost takes = take_views(contributions@);
        let ghost bits = bio@;
        let count: usize = block.segments.len();
        let full: bool = count == 0 || block.segments[count - 1].passes
            >= block.segments[count - 1].max_passes;
        if full {
            let max_passes: u32 = segment_max_passes(style, &block.segments);
            block.segments.push(SegmentState { passes: 0, max_passes, chunks: Vec::new() });
            proof {
                let fresh = SegmentView {
                    passes: 0,
                    max_passes: max_passes as nat,
                    chunks: Seq::empty(),
                };
                assert(block@.segments.last().chunks =~= fresh.chunks);
                assert(block@.segments =~= entry.segments.push(fresh));
            }
        }
        assert(block@.segments =~= open_segment(style, entry.segments));
        let i: usize = block.segments.len() - 1;
        let ghost opened = block@.segments;
        assert(opened[i as int] == block.segments@[i as int]@);
        let room: u32 = block.segments[i].max_passes - block.segments[i].passes;
        let taken: u32 = if left < room { left } else { room };
        let length_bits: u32 = block.lblock + ilog2(taken);
        proof {
            lemma_bits_bound(bio@, length_bits as nat);
        }
        let seg_len: usize = bio.read(length_bits) as usize;
        block.segments[i].passes = block.segments[i].passes + taken;
        if seg_len > 0 {
            contributions.push(Contribution { band, block: index, segment: i, seg_len });
        }
        left = left - taken;
        proof {
            let updated = SegmentView {
                passes: opened[i as int].passes + taken as nat,
                ..opened[i as int]
            };
            assert(block@.segments =~= opened.update(i as int, updated));
            let t = TakeView {
                band: band as int,
                block: index as int,
                segment: i as int,
                len: seg_len as nat,
            };
            if seg_len > 0 {
                assert(take_views(contributions@) =~= takes.push(t));
            }
            assert(base.update(index as int, entry)[index as int] == entry);
            assert(base.update(index as int, entry).update(index as int, block@) =~= base.update(
                index as int,
                block@,
            ));
            assert(block@ == (EntryView { segments: block@.segments, ..entry }));
        }
    }
}

/// Read a contributing block's fields.
fn read_contribution<'a>(
    block: &mut BlockState<'a>,
    style: u8,
    band: usize,
    index: usize,
    bio: &mut BitReader<'_>,
    contributions: &mut Vec<Contribution>,
    Ghost(trees): Ghost<TreesView>,
    Ghost(base): Ghost<Seq<EntryView>>,
) -> (r: Result<()>)
    requires
        old(bio)@.wf(),
        entry_ok(old(block)@),
        index < base.len(),
    ensures
        ({
            let want = contribution_spec(
                header_state(
                    trees,
                    base,
                    index as int,
                    old(block)@,
                    old(bio)@,
                    take_views(old(contributions)@),
                ),
                style,
                band as int,
                index as int,
            );
            match r {
                Ok(_) => want == Ok::<HeaderState, Fault>(
                    header_state(
                        trees,
                        base,
                        index as int,
                        final(block)@,
                        final(bio)@,
                        take_views(final(contributions)@),
                    ),
                ),
                Err(e) => want == Err::<HeaderState, Fault>(e@),
            }
        }),
        final(bio)@.wf(),
        final(bio)@.data == old(bio)@.data,
        entry_ok(final(block)@),
        final(block)@.segments.len() >= old(block)@.segments.len(),
        final(contributions)@.len() >= old(contributions)@.len(),
        forall|k: int|
            0 <= k < old(contributions)@.len() ==> #[trigger] final(contributions)@[k] == old(
                contributions,
            )@[k],
        forall|k: int|
            old(contributions)@.len() <= k < final(contributions)@.len() ==> {
                let t = #[trigger] final(contributions)@[k];
                t.band == band && t.block == index && t.segment < final(block)@.segments.len()
            },
{
    let ghost before = block@;
    let ghost takes = take_views(contributions@);
    let passes: u32 = read_num_passes(bio);
    let ghost goal = grow_lblock(before.lblock, bio@);
    let ghost data = bio@.data;
    let mut more: bool = true;
    while more
        invariant
            bio@.wf(),
            bio@.data == data,
            block.lblock <= LBLOCK_MAX,
            block@ == (EntryView { lblock: block@.lblock, ..before }),
            more ==> grow_lblock(block@.lblock, bio@) == goal,
            !more ==> goal == Ok::<(nat, BitState), Fault>((block@.lblock, bio@)),
            entry_ok(before),
            contributions@ == old(contributions)@,
            before == old(block)@,
            (passes as nat, goal) == (
                pass_count(old(bio)@).0,
                grow_lblock(before.lblock, pass_count(old(bio)@).1),
            ),
            data == old(bio)@.data,
            index < base.len(),
        decreases LBLOCK_MAX - block.lblock, (if more { 1int } else { 0int }),
    {
        proof {
            lemma_bit_wf(bio@);
        }
        if bio.read_bit() == 1 {
            if block.lblock >= LBLOCK_MAX {
                proof {
                    assert(base.update(index as int, before)[index as int] == before);
                }
                return Err(Error::Codestream("Lblock indicator runs too long".to_string()));
            }
            block.lblock = block.lblock + 1;
        } else {
            more = false;
        }
    }
    block.num_passes = if block.num_passes > u32::MAX - passes {
        u32::MAX
    } else {
        block.num_passes + passes
    };
    proof {
        assert(base.update(index as int, before)[index as int] == before);
        assert(base.update(index as int, before).update(index as int, block@) =~= base.update(
            index as int,
            block@,
        ));
        assert(block@ == (EntryView {
            lblock: block@.lblock,
            num_passes: add_passes(before.num_passes, passes as nat),
            ..before
        }));
    }
    read_segments(
        block,
        style,
        band,
        index,
        passes,
        bio,
        contributions,
        Ghost(trees),
        Ghost(base),
    );
    Ok(())
}

/// Every contribution from `from` on names a segment of the band's blocks.
pub open spec fn contributions_in(
    contributions: Seq<Contribution>,
    from: int,
    band: int,
    blocks: Seq<EntryView>,
) -> bool {
    forall|k: int|
        from <= k < contributions.len() ==> {
            let t = #[trigger] contributions[k];
            &&& t.band == band
            &&& t.block < blocks.len()
            &&& t.segment < blocks[t.block as int].segments.len()
        }
}

/// Read one block's entry in a packet header.
fn read_entry<'a>(
    trees: &mut PrecinctState,
    blocks: &mut Vec<BlockState<'a>>,
    layer: u32,
    style: u8,
    band: usize,
    index: usize,
    x: u32,
    y: u32,
    bio: &mut BitReader<'_>,
    contributions: &mut Vec<Contribution>,
    Ghost(p): Ghost<PrecinctView>,
    Ghost(from): Ghost<int>,
) -> (r: Result<()>)
    requires
        old(bio)@.wf(),
        trees_fit(old(trees)@, p),
        x < p.cols,
        y < p.rows,
        index < old(blocks)@.len(),
        layer < u32::MAX,
        forall|i: int| 0 <= i < old(blocks)@.len() ==> entry_ok(#[trigger] block_views(old(blocks)@)[i]),
        0 <= from <= old(contributions)@.len(),
        contributions_in(old(contributions)@, from, band as int, block_views(old(blocks)@)),
    ensures
        ({
            let want = entry_spec(
                HeaderState {
                    trees: old(trees)@,
                    blocks: block_views(old(blocks)@),
                    bits: old(bio)@,
                    takes: take_views(old(contributions)@),
                },
                layer,
                style,
                band as int,
                index as int,
                x as nat,
                y as nat,
            );
            match r {
                Ok(_) => want == Ok::<HeaderState, Fault>(
                    HeaderState {
                        trees: final(trees)@,
                        blocks: block_views(final(blocks)@),
                        bits: final(bio)@,
                        takes: take_views(final(contributions)@),
                    },
                ),
                Err(e) => want == Err::<HeaderState, Fault>(e@),
            }
        }),
        final(bio)@.wf(),
        final(bio)@.data == old(bio)@.data,
        trees_fit(final(trees)@, p),
        final(blocks)@.len() == old(blocks)@.len(),
        r.is_ok() ==> forall|i: int|
            0 <= i < final(blocks)@.len() ==> entry_ok(#[trigger] block_views(final(blocks)@)[i]),
        final(contributions)@.len() >= old(contributions)@.len(),
        forall|k: int|
            0 <= k < old(contributions)@.len() ==> #[trigger] final(contributions)@[k] == old(
                contributions,
            )@[k],
        r.is_ok() ==> contributions_in(
            final(contributions)@,
            from,
            band as int,
            block_views(final(blocks)@),
        ),
{
    let ghost views = block_views(blocks@);
    let ghost entry = blocks@[index as int]@;
    assert(views[index as int] == entry);
    if blocks[index].included {
        proof {
            lemma_bit_wf(bio@);
        }
        if bio.read_bit() != 1 {
            return Ok(());
        }
    } else {
        match trees.inclusion.read(x, y, layer + 1, bio) {
            None => {
                return Ok(());
            },
            Some(_) => {
                match trees.zero_bits.read(x, y, ZBP_LIMIT, bio) {
                    None => {
                        return Err(
                            Error::Codestream("zero-bitplane count exceeds the limit".to_string()),
                        );
                    },
                    Some(n) => {
                        blocks[index].included = true;
                        blocks[index].zero_bit_planes = n;
                        assert(block_views(blocks@) =~= views.update(
                            index as int,
                            EntryView { included: true, zero_bit_planes: n as nat, ..entry },
                        ));
                    },
                }
            },
        }
    }
    let ghost mid = block_views(blocks@);
    let ghost mid_entry = blocks@[index as int]@;
    proof {
        assert(mid[index as int] == mid_entry);
        assert(mid =~= mid.update(index as int, mid_entry));
        assert(entry_ok(mid_entry));
    }
    let r: Result<()> = read_contribution(
        &mut blocks[index],
        style,
        band,
        index,
        bio,
        contributions,
        Ghost(trees@),
        Ghost(mid),
    );
    proof {
        assert(block_views(blocks@) =~= mid.update(index as int, blocks@[index as int]@));
    }
    r
}

/// Read one precinct's entries, on one subband, from a packet header.
fn parse_band_header<'a>(
    band: usize,
    precinct: &PrecinctGeom,
    trees: &mut PrecinctState,
    blocks: &mut Vec<BlockState<'a>>,
    layer: u32,
    style: u8,
    bio: &mut BitReader<'_>,
    contributions: &mut Vec<Contribution>,
) -> (r: Result<()>)
    requires
        old(bio)@.wf(),
        precinct_shape(precinct@, old(blocks)@.len()),
        trees_fit(old(trees)@, precinct@),
        layer < u32::MAX,
        forall|i: int| 0 <= i < old(blocks)@.len() ==> entry_ok(#[trigger] block_views(old(blocks)@)[i]),
    ensures
        ({
            let want = entries_spec(
                HeaderState {
                    trees: old(trees)@,
                    blocks: block_views(old(blocks)@),
                    bits: old(bio)@,
                    takes: take_views(old(contributions)@),
                },
                layer,
                style,
                band as int,
                precinct@,
                0,
            );
            match r {
                Ok(_) => want == Ok::<HeaderState, Fault>(
                    HeaderState {
                        trees: final(trees)@,
                        blocks: block_views(final(blocks)@),
                        bits: final(bio)@,
                        takes: take_views(final(contributions)@),
                    },
                ),
                Err(e) => want == Err::<HeaderState, Fault>(e@),
            }
        }),
        final(bio)@.wf(),
        final(bio)@.data == old(bio)@.data,
        trees_fit(final(trees)@, precinct@),
        final(blocks)@.len() == old(blocks)@.len(),
        r.is_ok() ==> forall|i: int|
            0 <= i < final(blocks)@.len() ==> entry_ok(#[trigger] block_views(final(blocks)@)[i]),
        final(contributions)@.len() >= old(contributions)@.len(),
        forall|k: int|
            0 <= k < old(contributions)@.len() ==> #[trigger] final(contributions)@[k] == old(
                contributions,
            )@[k],
        r.is_ok() ==> contributions_in(
            final(contributions)@,
            old(contributions)@.len() as int,
            band as int,
            block_views(final(blocks)@),
        ),
{
    let ghost from = contributions@.len() as int;
    let ghost count = blocks@.len();
    let ghost goal = entries_spec(
        HeaderState {
            trees: trees@,
            blocks: block_views(blocks@),
            bits: bio@,
            takes: take_views(contributions@),
        },
        layer,
        style,
        band as int,
        precinct@,
        0,
    );
    let mut i: usize = 0;
    while i < precinct.blocks.len()
        invariant
            i <= precinct@.blocks.len(),
            precinct@.blocks == precinct.blocks@,
            bio@.wf(),
            bio@.data == old(bio)@.data,
            precinct_shape(precinct@, count),
            blocks@.len() == count,
            count == old(blocks)@.len(),
            trees_fit(trees@, precinct@),
            layer < u32::MAX,
            forall|j: int| 0 <= j < blocks@.len() ==> entry_ok(#[trigger] block_views(blocks@)[j]),
            from == old(contributions)@.len(),
            contributions@.len() >= from,
            forall|k: int|
                0 <= k < from ==> #[trigger] contributions@[k] == old(contributions)@[k],
            contributions_in(contributions@, from, band as int, block_views(blocks@)),
            entries_spec(
                HeaderState {
                    trees: trees@,
                    blocks: block_views(blocks@),
                    bits: bio@,
                    takes: take_views(contributions@),
                },
                layer,
                style,
                band as int,
                precinct@,
                i as int,
            ) == goal,
            goal == entries_spec(
                HeaderState {
                    trees: old(trees)@,
                    blocks: block_views(old(blocks)@),
                    bits: old(bio)@,
                    takes: take_views(old(contributions)@),
                },
                layer,
                style,
                band as int,
                precinct@,
                0,
            ),
        decreases precinct@.blocks.len() - i,
    {
        proof {
            super::geometry::lemma_grid_position(
                i as int,
                precinct.cols as int,
                precinct.rows as int,
            );
        }
        let x: u32 = (i % precinct.cols) as u32;
        let y: u32 = (i / precinct.cols) as u32;
        read_entry(
            trees,
            blocks,
            layer,
            style,
            band,
            precinct.blocks[i],
            x,
            y,
            bio,
            contributions,
            Ghost(precinct@),
            Ghost(from),
        )?;
        i = i + 1;
    }
    Ok(())
}

/// The two-byte marker at `pos`, or `None` if it would run past the end.
fn peek_marker(data: &[u8], pos: usize) -> (m: Option<u16>)
    ensures
        m == marker_at(data@, pos as int),
{
    if data.len() >= 2 && pos <= data.len() - 2 {
        Some(data[pos] as u16 * 256 + data[pos + 1] as u16)
    } else {
        None
    }
}

/// Consume the SOP marker segment at `pos` and return where the packet header
/// starts.
fn read_sop(data: &[u8], pos: usize, packet_index: u32) -> (r: Result<usize>)
    requires
        pos <= data@.len(),
    ensures
        match r {
            Ok(end) => sop_spec(data@, pos as int, packet_index) == Ok::<int, Fault>(
                end as int,
            ),
            Err(e) => sop_spec(data@, pos as int, packet_index) == Err::<int, Fault>(e@),
        },
{
    if data.len() - pos < 6 {
        return Err(Error::Codestream("truncated SOP marker segment".to_string()));
    }
    let length: u64 = data[pos + 2] as u64 * 256 + data[pos + 3] as u64;
    if length != 4 {
        return Err(
            Error::Codestream(
                "SOP declares Lsop ".to_string().concat(decimal(length).as_str()).concat(
                    ", expected 4",
                ),
            ),
        );
    }
    let number: u64 = data[pos + 4] as u64 * 256 + data[pos + 5] as u64;
    let expected: u64 = packet_index as u64 % 65536;
    if number != expected {
        return Err(
            Error::Codestream(
                "SOP sequence number ".to_string().concat(decimal(number).as_str()).concat(
                    " for packet ",
                ).concat(decimal(packet_index as u64).as_str()).concat(", expected ").concat(
                    decimal(expected).as_str(),
                ),
            ),
        );
    }
    Ok(pos + 6)
}

/// The two byte streams that a packet is read from.
#[derive(Debug)]
pub struct PacketStreams<'a> {
    /// Where packet headers are read: the packed headers, or the data.
    pub header: &'a [u8],
    pub header_pos: usize,
    /// Where packet bodies and SOP markers are read: the tile data.
    pub data: &'a [u8],
    pub body_pos: usize,
    /// The header stream is apart from the data.
    pub packed: bool,
}

impl<'a> View for PacketStreams<'a> {
    type V = StreamsView;

    open spec fn view(&self) -> StreamsView {
        StreamsView {
            header: self.header@,
            header_pos: self.header_pos as nat,
            data: self.data@,
            body_pos: self.body_pos as nat,
            packed: self.packed,
        }
    }
}

impl StreamsView {
    /// The positions lie within the streams, which are one unless they are packed.
    pub open spec fn wf(&self) -> bool {
        &&& self.body_pos <= self.data.len()
        &&& self.header_pos <= self.header.len()
        &&& !self.packed ==> self.header == self.data
    }
}

/// Every band's state is one for its geometry, and holds the precinct.
pub open spec fn states_fit(
    states: Seq<BandStateView>,
    bands: Seq<BandView>,
    precinct: int,
) -> bool {
    &&& states.len() == bands.len()
    &&& forall|i: int|
        0 <= i < bands.len() ==> state_fits(#[trigger] states[i], bands[i]) && 0 <= precinct
            < bands[i].precincts.len()
}

/// A contribution names a segment of the bands' states.
pub open spec fn take_ok(states: Seq<BandStateView>, t: Contribution) -> bool {
    &&& t.band < states.len()
    &&& t.block < states[t.band as int].blocks.len()
    &&& t.segment < states[t.band as int].blocks[t.block as int].segments.len()
}

/// Read the bands of a packet header.
fn parse_bands<'a>(
    layer: u32,
    style: u8,
    bands: &Vec<BandGeom>,
    precinct: usize,
    states: &mut Vec<BandState<'a>>,
    bio: &mut BitReader<'_>,
) -> (r: Result<Vec<Contribution>>)
    requires
        old(bio)@.wf(),
        layer < u32::MAX,
        states_fit(
            state_views(old(states)@),
            super::geometry::band_views(bands@),
            precinct as int,
        ),
    ensures
        ({
            let want = bands_spec(
                PacketState {
                    states: state_views(old(states)@),
                    bits: old(bio)@,
                    takes: Seq::empty(),
                },
                layer,
                style,
                super::geometry::band_views(bands@),
                precinct as int,
                0,
            );
            match r {
                Ok(contributions) => {
                    &&& want == Ok::<PacketState, Fault>(
                        PacketState {
                            states: state_views(final(states)@),
                            bits: final(bio)@,
                            takes: take_views(contributions@),
                        },
                    )
                    &&& states_fit(
                        state_views(final(states)@),
                        super::geometry::band_views(bands@),
                        precinct as int,
                    )
                    &&& forall|k: int|
                        0 <= k < contributions@.len() ==> take_ok(
                            state_views(final(states)@),
                            #[trigger] contributions@[k],
                        )
                },
                Err(e) => want == Err::<PacketState, Fault>(e@),
            }
        }),
        final(bio)@.wf(),
        final(bio)@.data == old(bio)@.data,
{
    let ghost views = super::geometry::band_views(bands@);
    let mut contributions: Vec<Contribution> = Vec::new();
    let ghost goal = bands_spec(
        PacketState { states: state_views(states@), bits: bio@, takes: Seq::empty() },
        layer,
        style,
        views,
        precinct as int,
        0,
    );
    assert(take_views(contributions@) =~= Seq::<TakeView>::empty());
    let mut i: usize = 0;
    while i < bands.len()
        invariant
            i <= bands@.len(),
            views == super::geometry::band_views(bands@),
            bio@.wf(),
            bio@.data == old(bio)@.data,
            layer < u32::MAX,
            states_fit(state_views(states@), views, precinct as int),
            forall|k: int|
                0 <= k < contributions@.len() ==> take_ok(
                    state_views(states@),
                    #[trigger] contributions@[k],
                ) && contributions@[k].band < i,
            bands_spec(
                PacketState {
                    states: state_views(states@),
                    bits: bio@,
                    takes: take_views(contributions@),
                },
                layer,
                style,
                views,
                precinct as int,
                i as int,
            ) == goal,
            goal == bands_spec(
                PacketState {
                    states: state_views(old(states)@),
                    bits: old(bio)@,
                    takes: Seq::empty(),
                },
                layer,
                style,
                views,
                precinct as int,
                0,
            ),
        decreases bands@.len() - i,
    {
        let ghost all = state_views(states@);
        let ghost before = states@[i as int]@;
        let ghost taken = contributions@;
        proof {
            assert(all[i as int] == before);
            assert(views[i as int] == bands@[i as int]@);
            assert(state_fits(all[i as int], views[i as int]));
            assert(views[i as int].precincts[precinct as int]
                == bands@[i as int].precincts@[precinct as int]@);
            assert(before.precincts[precinct as int]
                == states@[i as int].precincts@[precinct as int]@);
            assert(trees_fit(before.precincts[precinct as int], views[i as int].precincts[
                precinct as int
            ]));
            assert(before.blocks == block_views(states@[i as int].blocks@));
        }
        let state: &mut BandState<'a> = &mut states[i];
        let r: Result<()> = parse_band_header(
            i,
            &bands[i].precincts[precinct],
            &mut state.precincts[precinct],
            &mut state.blocks,
            layer,
            style,
            bio,
            &mut contributions,
        );
        match r {
            Ok(_) => {},
            Err(e) => {
                return Err(e);
            },
        }
        proof {
            let after = states@[i as int]@;
            assert(after.precincts =~= before.precincts.update(
                precinct as int,
                after.precincts[precinct as int],
            ));
            assert(state_views(states@) =~= all.update(i as int, after));
            let now = state_views(states@);
            assert forall|k: int| 0 <= k < contributions@.len() implies take_ok(
                now,
                #[trigger] contributions@[k],
            ) && contributions@[k].band < i + 1 by {
                if k < taken.len() {
                    assert(contributions@[k] == taken[k]);
                    assert(take_ok(all, taken[k]));
                    assert(now[taken[k].band as int] == all[taken[k].band as int]);
                }
            }
            assert forall|j: int| 0 <= j < views.len() implies state_fits(
                #[trigger] now[j],
                views[j],
            ) by {
                assert(state_fits(all[j], views[j]));
                if j == i {
                    assert forall|b: int| 0 <= b < now[j].blocks.len() implies entry_ok(
                        #[trigger] now[j].blocks[b],
                    ) by {
                        assert(now[j].blocks[b] == block_views(states@[i as int].blocks@)[b]);
                    }
                }
            }
        }
        i = i + 1;
    }
    Ok(contributions)
}

/// Take a packet's body: each contribution's bytes in turn, filed with its
/// segment. Returns where the body ends.
fn read_body<'a>(
    data: &'a [u8],
    start: usize,
    contributions: &Vec<Contribution>,
    states: &mut Vec<BandState<'a>>,
    Ghost(bands): Ghost<Seq<BandView>>,
    Ghost(precinct): Ghost<int>,
) -> (r: Result<usize>)
    requires
        start <= data@.len(),
        states_fit(state_views(old(states)@), bands, precinct),
        forall|k: int|
            0 <= k < contributions@.len() ==> take_ok(
                state_views(old(states)@),
                #[trigger] contributions@[k],
            ),
    ensures
        ({
            let want = body_spec(
                state_views(old(states)@),
                data@,
                start as int,
                take_views(contributions@),
                0,
            );
            match r {
                Ok(end) => {
                    &&& want == Ok::<(Seq<BandStateView>, int), Fault>(
                        (state_views(final(states)@), end as int),
                    )
                    &&& states_fit(state_views(final(states)@), bands, precinct)
                    &&& end <= data@.len()
                },
                Err(e) => want == Err::<(Seq<BandStateView>, int), Fault>(e@),
            }
        }),
{
    let ghost takes = take_views(contributions@);
    let ghost goal = body_spec(state_views(states@), data@, start as int, takes, 0);
    let mut pos: usize = start;
    let mut i: usize = 0;
    while i < contributions.len()
        invariant
            i <= contributions@.len(),
            pos <= data@.len(),
            takes == take_views(contributions@),
            states_fit(state_views(states@), bands, precinct),
            forall|k: int|
                0 <= k < contributions@.len() ==> take_ok(
                    state_views(states@),
                    #[trigger] contributions@[k],
                ),
            body_spec(state_views(states@), data@, pos as int, takes, i as int) == goal,
            goal == body_spec(state_views(old(states)@), data@, start as int, takes, 0),
        decreases contributions@.len() - i,
    {
        let t: Contribution = contributions[i];
        assert(takes[i as int] == t@);
        if t.seg_len > data.len() - pos {
            return Err(Error::Codestream("packet body segment overruns the tile-part".to_string()));
        }
        let end: usize = pos + t.seg_len;
        let chunk: &'a [u8] = slice_subrange(data, pos, end);
        let ghost all = state_views(states@);
        let ghost state = states@[t.band as int]@;
        let ghost entry = states@[t.band as int].blocks@[t.block as int]@;
        let ghost seg = states@[t.band as int].blocks@[t.block as int].segments@[t.segment as int]@;
        proof {
            assert(take_ok(all, t));
            assert(all[t.band as int] == state);
            assert(state.blocks[t.block as int] == entry);
            assert(entry.segments[t.segment as int] == seg);
        }
        states[t.band].blocks[t.block].segments[t.segment].chunks.push(chunk);
        proof {
            let seg2 = states@[t.band as int].blocks@[t.block as int].segments@[t.segment as int]@;
            assert(seg2.chunks =~= seg.chunks.push(chunk@));
            let entry2 = states@[t.band as int].blocks@[t.block as int]@;
            assert(entry2.segments =~= entry.segments.update(t.segment as int, seg2));
            let state2 = states@[t.band as int]@;
            assert(state2.blocks =~= state.blocks.update(t.block as int, entry2));
            assert(state2.precincts =~= state.precincts);
            let now = state_views(states@);
            assert(now =~= all.update(t.band as int, state2));
            assert(now == file_chunk(all, t@, data@.subrange(pos as int, end as int)));
            assert forall|k: int| 0 <= k < contributions@.len() implies take_ok(
                now,
                #[trigger] contributions@[k],
            ) by {
                assert(take_ok(all, contributions@[k]));
            }
            assert forall|j: int| 0 <= j < bands.len() implies state_fits(
                #[trigger] now[j],
                bands[j],
            ) by {
                assert(state_fits(all[j], bands[j]));
                if j == t.band {
                    assert forall|b: int| 0 <= b < now[j].blocks.len() implies entry_ok(
                        #[trigger] now[j].blocks[b],
                    ) by {
                        assert(entry_ok(all[j].blocks[b]));
                        if b == t.block {
                            assert forall|q: int| 0 <= q < entry2.segments.len() implies ({
                                let sg = #[trigger] entry2.segments[q];
                                sg.passes <= sg.max_passes <= 109
                            }) by {
                                assert(entry.segments[q].passes <= entry.segments[q].max_passes);
                            }
                        }
                    }
                }
            }
        }
        pos = end;
        i = i + 1;
    }
    Ok(pos)
}

/// Parse one packet: one precinct of one resolution of one component in one
/// layer. The streams move past it and its contributions are folded into
/// `states`.
#[verifier::spinoff_prover]
#[verifier::rlimit(40)]
pub fn parse_packet<'a>(
    streams: &mut PacketStreams<'a>,
    layer: u32,
    packet_index: u32,
    delimiters: Delimiters,
    style: u8,
    bands: &Vec<BandGeom>,
    precinct: usize,
    states: &mut Vec<BandState<'a>>,
) -> (r: Result<()>)
    requires
        old(streams)@.wf(),
        layer < u32::MAX,
        states_fit(
            state_views(old(states)@),
            super::geometry::band_views(bands@),
            precinct as int,
        ),
    ensures
        ({
            let want = packet_spec(
                old(streams)@,
                layer,
                packet_index,
                delimiters,
                style,
                super::geometry::band_views(bands@),
                precinct as int,
                state_views(old(states)@),
            );
            match r {
                Ok(_) => {
                    &&& want == Ok::<(StreamsView, Seq<BandStateView>), Fault>(
                        (final(streams)@, state_views(final(states)@)),
                    )
                    &&& final(streams)@.wf()
                    &&& states_fit(
                        state_views(final(states)@),
                        super::geometry::band_views(bands@),
                        precinct as int,
                    )
                },
                Err(e) => want == Err::<(StreamsView, Seq<BandStateView>), Fault>(e@),
            }
        }),
{
    let ghost views = super::geometry::band_views(bands@);
    let mut body: usize = streams.body_pos;
    if delimiters.sop && peek_marker(streams.data, body) == Some(SOP_MARKER) {
        body = read_sop(streams.data, body, packet_index)?;
    }
    let head: usize = if streams.packed { streams.header_pos } else { body };
    if head >= streams.header.len() {
        return Err(Error::Codestream("tile-part ends before the last packet".to_string()));
    }
    let bytes: &[u8] = slice_subrange(streams.header, head, streams.header.len());
    let mut bio: BitReader<'_> = BitReader::new(bytes);
    proof {
        lemma_bit_wf(bio@);
    }
    let present: bool = bio.read_bit() == 1;
    let contributions: Vec<Contribution> = if present {
        parse_bands(layer, style, bands, precinct, states, &mut bio)?
    } else {
        Vec::new()
    };
    proof {
        if !present {
            assert(take_views(contributions@) =~= Seq::<TakeView>::empty());
        }
    }
    bio.align();
    let mut head: usize = head + bio.bytes_consumed();
    if delimiters.eph {
        if peek_marker(streams.header, head) != Some(EPH_MARKER) {
            return Err(
                Error::Codestream(
                    "COD signals EPH but the packet header is not followed by one".to_string(),
                ),
            );
        }
        head = head + 2;
    }
    if !streams.packed {
        body = head;
    }
    let end: usize = read_body(
        streams.data,
        body,
        &contributions,
        states,
        Ghost(views),
        Ghost(precinct as int),
    )?;
    streams.body_pos = end;
    streams.header_pos = if streams.packed { head } else { end };
    Ok(())
}

} // verus!
