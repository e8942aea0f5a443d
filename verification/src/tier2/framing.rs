//! How a packet stands in its tile: behind and in front of the delimiters that the
//! header signals, under the style of its own component, and with no part in what the
//! other resolutions and components hold.

use super::bio::BitState;
use super::geometry::ResolutionView;
use super::packet::{marker_at, sop_spec, EPH_MARKER, SOP_MARKER};
use super::progression::Packet;
use super::tile::{initial_model, tile_step, TileModel};
use crate::codestream::cursor::be16;
use crate::codestream::{HeaderView, TileView};
use vstd::prelude::*;

verus! {

/// A model that parses under the parameters of a header.
pub open spec fn parses_under(
    m: TileModel,
    h: HeaderView,
    tile: TileView,
    geoms: Seq<Seq<ResolutionView>>,
) -> bool {
    &&& m.delimiters == initial_model(h, tile, geoms).delimiters
    &&& m.styles == initial_model(h, tile, geoms).styles
}

/// An SOP marker segment with the number of packet `index`.
pub open spec fn sop_written(index: u32) -> Seq<u8> {
    seq![
        0xFFu8,
        0x91,
        0,
        4,
        (index % 65536 / 256) as u8,
        (index % 65536 % 256) as u8,
    ]
}

/// An empty packet as a header has it: an SOP in front where it signals these, one byte
/// that begins with a 0 bit, and an EPH behind where it signals those.
pub open spec fn empty_packet(h: HeaderView, index: u32) -> Seq<u8> {
    (if h.cod.use_sop {
        sop_written(index)
    } else {
        Seq::empty()
    }) + seq![0u8] + (if h.cod.use_eph {
        seq![0xFFu8, 0x92]
    } else {
        Seq::empty()
    })
}

/// An empty header is one byte.
proof fn lemma_empty_header(data: Seq<u8>)
    requires
        data.len() > 0,
        data[0] == 0,
    ensures
        BitState::init(data).bit().0 == 0,
        BitState::init(data).bit().1.align().consumed() == 1,
{
    assert((0u8 >> 7u8) & 1 == 0) by (bit_vector);
}

/// A packet that holds nothing is read past with exactly the delimiters that the header
/// signals. It changes no block, and the next packet has the next number.
pub proof fn lemma_empty_packet_is_read_past(
    h: HeaderView,
    tile: TileView,
    geoms: Seq<Seq<ResolutionView>>,
    m: TileModel,
    p: Packet,
    tail: Seq<u8>,
)
    requires
        parses_under(m, h, tile, geoms),
        !m.streams.packed,
        m.streams.header == m.streams.data,
        m.streams.body_pos <= m.streams.data.len(),
        m.streams.data.skip(m.streams.body_pos as int) == empty_packet(h, m.index) + tail,
        0 <= p.comp < m.states.len(),
        0 <= p.res < m.states[p.comp].len(),
    ensures
        tile_step(m, p) matches Ok(n) && {
            &&& n.streams.body_pos == m.streams.body_pos + empty_packet(h, m.index).len()
            &&& n.streams.header_pos == n.streams.body_pos
            &&& n.streams.data == m.streams.data
            &&& n.states == m.states
            &&& m.index < u32::MAX ==> n.index == m.index + 1
        },
{
    let data = m.streams.data;
    let pos = m.streams.body_pos as int;
    let all = empty_packet(h, m.index);
    let left = data.skip(pos);
    assert(left == all + tail);
    assert forall|i: int| 0 <= i < all.len() implies #[trigger] all[i] == data[pos + i] by {
        assert(left[i] == all[i]);
    }
    assert(left.len() == data.len() - pos);
    let front = if h.cod.use_sop { 6int } else { 0int };
    let head = pos + front;
    assert(all[front] == 0u8);
    assert(data[head] == 0u8);
    if h.cod.use_sop {
        let s = sop_written(m.index);
        assert(all[0] == s[0] && all[1] == s[1] && all[2] == s[2]);
        assert(all[3] == s[3] && all[4] == s[4] && all[5] == s[5]);
        assert(data[pos] == 0xFF && data[pos + 1] == 0x91);
        assert(marker_at(data, pos) == Some(SOP_MARKER));
        assert(be16(data, pos + 2) == 4);
        assert(be16(data, pos + 4) == m.index % 65536);
        assert(sop_spec(data, pos, m.index) == Ok::<int, crate::error::Fault>(head));
    } else {
        assert(data[pos] == 0);
        assert(marker_at(data, pos) != Some(SOP_MARKER));
    }
    let header = data.subrange(head, data.len() as int);
    assert(header[0] == data[head]);
    lemma_empty_header(header);
    if h.cod.use_eph {
        assert(all[front + 1] == 0xFF && all[front + 2] == 0x92);
        assert(data[head + 1] == 0xFF && data[head + 2] == 0x92);
        assert(marker_at(data, head + 1) == Some(EPH_MARKER));
    }
    let n = tile_step(m, p)->Ok_0;
    assert(m.states[p.comp].update(p.res, m.states[p.comp][p.res]) =~= m.states[p.comp]);
    assert(n.states =~= m.states);
}

/// A header's EPH markers have to be there: an empty packet without the one that is
/// signalled is refused.
pub proof fn lemma_signalled_eph_is_needed(
    h: HeaderView,
    tile: TileView,
    geoms: Seq<Seq<ResolutionView>>,
    m: TileModel,
    p: Packet,
)
    requires
        parses_under(m, h, tile, geoms),
        h.cod.use_eph,
        !m.streams.packed,
        m.streams.header == m.streams.data,
        m.streams.body_pos < m.streams.data.len(),
        m.streams.data[m.streams.body_pos as int] == 0,
        marker_at(m.streams.data, m.streams.body_pos + 1int) != Some(EPH_MARKER),
    ensures
        tile_step(m, p) is Err,
{
    let data = m.streams.data;
    let pos = m.streams.body_pos as int;
    assert(marker_at(data, pos) != Some(SOP_MARKER));
    let header = data.subrange(pos, data.len() as int);
    assert(header[0] == data[pos]);
    lemma_empty_header(header);
}

/// A packet is read under the code-block style of its own component: under two headers
/// that give that component one style and signal the same delimiters it is read alike,
/// whatever the styles of the other components.
pub proof fn lemma_packet_takes_its_own_style(
    a: HeaderView,
    b: HeaderView,
    tile: TileView,
    geoms: Seq<Seq<ResolutionView>>,
    m: TileModel,
    n: TileModel,
    p: Packet,
)
    requires
        parses_under(m, a, tile, geoms),
        parses_under(n, b, tile, geoms),
        0 <= p.comp < a.components.len(),
        p.comp < b.components.len(),
        a.components[p.comp].coding.code_block_style
            == b.components[p.comp].coding.code_block_style,
        a.cod.use_sop == b.cod.use_sop,
        a.cod.use_eph == b.cod.use_eph,
        n == (TileModel { styles: n.styles, delimiters: n.delimiters, ..m }),
    ensures
        match (tile_step(m, p), tile_step(n, p)) {
            (Ok(u), Ok(v)) => u.streams == v.streams && u.states == v.states && u.index == v.index,
            (Err(e), Err(f)) => e == f,
            _ => false,
        },
{
}

/// A packet adds to its own resolution of its own component, and to nothing else. What
/// the tile is parsed under stays as it is.
pub proof fn lemma_packet_leaves_the_rest(m: TileModel, p: Packet)
    requires
        0 <= p.comp < m.states.len(),
        0 <= p.res < m.states[p.comp].len(),
    ensures
        tile_step(m, p) matches Ok(n) ==> {
            &&& n.states.len() == m.states.len()
            &&& forall|c: int, r: int|
                0 <= c < m.states.len() && 0 <= r < m.states[c].len() && (c != p.comp || r
                    != p.res) ==> #[trigger] n.states[c][r] == m.states[c][r]
            &&& n.geoms == m.geoms
            &&& n.styles == m.styles
            &&& n.delimiters == m.delimiters
            &&& n.streams.data == m.streams.data
            &&& n.streams.header == m.streams.header
        },
{
}

} // verus!
