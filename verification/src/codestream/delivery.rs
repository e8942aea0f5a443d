//! What the tile-parts deliver.
//!
//! The tile-parts follow one another in the codestream, each as long as it says. A tile
//! gets the packet data of its own tile-parts in the order in which they come, and their
//! packed packet headers in the same order. Where the main header carries the packed
//! headers, the first of its chunks is the first tile-part's, the second the second's.

use super::cursor::{be16, be32, segment_body, segment_end};
use super::lists::{joined_below, numbers_distinct, piece_of, stitched};
use super::markers::marker;
use super::tile_parts::{
    lemma_part_end, packed_spec, part_end, part_spec, parts_from, tiles_spec, PartHeaderView,
    PartsView,
};
use super::HeaderView;
use crate::error::ErrorKind;
use crate::math::max_int;
use crate::tier2::join;
use vstd::prelude::*;

verus! {

/// One tile-part: where its SOT is, the tile it belongs to, its packed packet headers
/// and its packet data, and where it ends.
pub struct PartView {
    pub at: int,
    pub tile: int,
    pub packed: Seq<u8>,
    pub data: Seq<u8>,
    pub end: int,
}

/// The packet data of a tile's parts, in order.
pub open spec fn data_of(parts: Seq<PartView>, tile: int) -> Seq<Seq<u8>>
    decreases parts.len(),
{
    if parts.len() == 0 {
        Seq::empty()
    } else if parts[0].tile == tile {
        seq![parts[0].data] + data_of(parts.drop_first(), tile)
    } else {
        data_of(parts.drop_first(), tile)
    }
}

/// The packed packet headers of a tile's parts, joined in order.
pub open spec fn headers_of(parts: Seq<PartView>, tile: int) -> Seq<u8>
    decreases parts.len(),
{
    if parts.len() == 0 {
        Seq::empty()
    } else if parts[0].tile == tile {
        parts[0].packed + headers_of(parts.drop_first(), tile)
    } else {
        headers_of(parts.drop_first(), tile)
    }
}

/// A tile-part lies in the codestream as it says: it opens with an SOT that names its
/// tile and its length, and its data runs from behind its SOD to its end.
pub open spec fn lies_in(b: Seq<u8>, p: PartView) -> bool {
    let start = p.end - p.data.len();
    &&& 0 <= p.at < start <= p.end <= b.len()
    &&& be16(b, p.at) == marker::SOT
    &&& p.tile == be16(b, p.at + 4)
    &&& be32(b, p.at + 6) != 0 ==> p.end == p.at + be32(b, p.at + 6)
    &&& be32(b, p.at + 6) == 0 ==> p.end == b.len() - 2
    &&& be16(b, start - 2) == marker::SOD
    &&& p.data == b.subrange(start, p.end)
}

/// The tile-parts from the one at `at` on: they lie in the codestream one behind the
/// other, up to the EOC, and take the main header's chunks in turn, from chunk `k` on.
pub open spec fn follow_one_another(
    b: Seq<u8>,
    at: int,
    chunks: Seq<Seq<u8>>,
    k: int,
    parts: Seq<PartView>,
) -> bool {
    &&& parts.len() > 0
    &&& parts[0].at == at
    &&& forall|j: int| 0 <= j < parts.len() ==> lies_in(b, #[trigger] parts[j])
    &&& forall|j: int|
        0 < j < parts.len() ==> (#[trigger] parts[j]).at == parts[j - 1].end
    &&& be16(b, parts.last().end) == marker::EOC
    &&& chunks.len() > 0 ==> forall|j: int|
        0 <= j < parts.len() ==> k + j < chunks.len() && (#[trigger] parts[j]).packed == chunks[k
            + j]
}

/// The SOD stands right before a tile-part's data.
proof fn lemma_header_stops_at_sod(
    p: PartHeaderView,
    b: Seq<u8>,
    pos: int,
    count: int,
    first: bool,
)
    ensures
        p.absorb_from(b, pos, count, first) matches Ok(v) ==> be16(b, v.1 - 2) == marker::SOD
            && v.1 - 2 >= pos && v.1 <= b.len(),
    decreases max_int(0, b.len() - pos),
{
    let code = be16(b, pos) as u16;
    if 0 <= pos && pos + 2 <= b.len() && code != marker::SOD {
        match p.absorb(code, segment_body(b, pos + 2), count) {
            Ok(next) => {
                lemma_header_stops_at_sod(next, b, segment_end(b, pos + 2), count, first);
            },
            Err(_) => {},
        }
    }
}

/// One tile-part, as it is delivered.
proof fn lemma_one_part(
    b: Seq<u8>,
    at: int,
    tiles: Seq<PartsView>,
    count: int,
    chunks: Seq<Seq<u8>>,
    k: int,
) -> (p: PartView)
    requires
        part_spec(b, at, tiles, count, chunks, k) is Ok,
        0 <= at,
    ensures
        p.at == at,
        lies_in(b, p),
        0 <= p.tile < tiles.len(),
        chunks.len() > 0 ==> k < chunks.len() && p.packed == chunks[k],
        part_spec(b, at, tiles, count, chunks, k)->Ok_0.1 == p.end,
        ({
            let next = part_spec(b, at, tiles, count, chunks, k)->Ok_0.0;
            &&& next.len() == tiles.len()
            &&& next[p.tile].parts == tiles[p.tile].parts.push(p.data)
            &&& next[p.tile].packed == tiles[p.tile].packed + p.packed
            &&& forall|t: int|
                0 <= t < tiles.len() && t != p.tile ==> #[trigger] next[t] == tiles[t]
        }),
{
    let body = segment_body(b, at + 2);
    let sot = super::lists::sot_spec(body);
    let (part, start) = PartHeaderView::empty().absorb_from(
        b,
        segment_end(b, at + 2),
        count,
        sot.tile_part_index == 0,
    )->Ok_0;
    lemma_header_stops_at_sod(
        PartHeaderView::empty(),
        b,
        segment_end(b, at + 2),
        count,
        sot.tile_part_index == 0,
    );
    let end = part_end(b, at, sot.psot, start)->Some_0;
    let packed = packed_spec(part.ppt, chunks, k)->Ok_0;
    let data = b.subrange(start, end);
    assert(sot.tile_index == be16(b, at + 4));
    assert(sot.psot == be32(b, at + 6));
    PartView { at, tile: sot.tile_index as int, packed, data, end }
}

/// Every tile-part from the one at `at` on is delivered to its tile.
pub proof fn lemma_parts_are_delivered(
    b: Seq<u8>,
    at: int,
    tiles: Seq<PartsView>,
    count: int,
    chunks: Seq<Seq<u8>>,
    k: int,
) -> (parts: Seq<PartView>)
    requires
        0 <= at,
        parts_from(b, at, tiles, count, chunks, k) is Ok,
    ensures
        follow_one_another(b, at, chunks, k, parts),
        ({
            let out = parts_from(b, at, tiles, count, chunks, k)->Ok_0;
            &&& out.len() == tiles.len()
            &&& forall|t: int|
                0 <= t < tiles.len() ==> (#[trigger] out[t]).parts == tiles[t].parts + data_of(
                    parts,
                    t,
                ) && out[t].packed == tiles[t].packed + headers_of(parts, t)
        }),
    decreases max_int(0, b.len() - at),
{
    lemma_part_end(b, at, tiles, count, chunks, k);
    let p = lemma_one_part(b, at, tiles, count, chunks, k);
    let (next, end) = part_spec(b, at, tiles, count, chunks, k)->Ok_0;
    let out = parts_from(b, at, tiles, count, chunks, k)->Ok_0;
    let rest = if be16(b, end) == marker::EOC {
        Seq::empty()
    } else {
        lemma_parts_are_delivered(b, end, next, count, chunks, k + 1)
    };
    let parts = seq![p] + rest;
    lemma_one_more_follows(b, chunks, k, p, rest);
    assert forall|t: int| 0 <= t < tiles.len() implies (#[trigger] out[t]).parts == tiles[t].parts
        + data_of(parts, t) && out[t].packed == tiles[t].packed + headers_of(parts, t) by {
        assert(next[t].parts == tiles[t].parts + if t == p.tile {
            seq![p.data]
        } else {
            Seq::empty()
        });
        assert(next[t].packed == tiles[t].packed + if t == p.tile {
            p.packed
        } else {
            Seq::empty()
        });
        if rest.len() == 0 {
            assert(out[t] == next[t]);
        }
        lemma_one_more_delivered(tiles[t], next[t], out[t], p, rest, t);
    }
    parts
}

/// A tile-part before others that follow one another.
proof fn lemma_one_more_follows(
    b: Seq<u8>,
    chunks: Seq<Seq<u8>>,
    k: int,
    p: PartView,
    rest: Seq<PartView>,
)
    requires
        lies_in(b, p),
        chunks.len() > 0 ==> k < chunks.len() && p.packed == chunks[k],
        rest.len() == 0 ==> be16(b, p.end) == marker::EOC,
        rest.len() > 0 ==> follow_one_another(b, p.end, chunks, k + 1, rest),
    ensures
        follow_one_another(b, p.at, chunks, k, seq![p] + rest),
{
    let parts = seq![p] + rest;
    assert forall|j: int| 0 <= j < parts.len() implies lies_in(b, #[trigger] parts[j]) by {
        if j > 0 {
            assert(parts[j] == rest[j - 1]);
        }
    }
    assert forall|j: int| 0 < j < parts.len() implies (#[trigger] parts[j]).at == parts[j
        - 1].end by {
        assert(parts[j] == rest[j - 1]);
        if j > 1 {
            assert(parts[j - 1] == rest[j - 2]);
        }
    }
    if chunks.len() > 0 {
        assert forall|j: int| 0 <= j < parts.len() implies k + j < chunks.len() && (
        #[trigger] parts[j]).packed == chunks[k + j] by {
            if j > 0 {
                assert(parts[j] == rest[j - 1]);
            }
        }
    }
    if rest.len() > 0 {
        assert(parts.last() == rest.last());
    }
}

/// A tile before a tile-part, after it and after those behind it.
proof fn lemma_one_more_delivered(
    tile: PartsView,
    next: PartsView,
    out: PartsView,
    p: PartView,
    rest: Seq<PartView>,
    t: int,
)
    requires
        next.parts == tile.parts + if t == p.tile {
            seq![p.data]
        } else {
            Seq::empty()
        },
        next.packed == tile.packed + if t == p.tile {
            p.packed
        } else {
            Seq::empty()
        },
        rest.len() == 0 ==> out == next,
        rest.len() > 0 ==> out.parts == next.parts + data_of(rest, t) && out.packed == next.packed
            + headers_of(rest, t),
    ensures
        out.parts == tile.parts + data_of(seq![p] + rest, t),
        out.packed == tile.packed + headers_of(seq![p] + rest, t),
{
    let parts = seq![p] + rest;
    assert(parts.drop_first() =~= rest);
    assert(parts[0] == p);
    let (own, head) = if t == p.tile {
        (seq![p.data], p.packed)
    } else {
        (Seq::empty(), Seq::empty())
    };
    assert(data_of(parts, t) =~= own + data_of(rest, t));
    assert(headers_of(parts, t) =~= head + headers_of(rest, t));
    if rest.len() == 0 {
        assert(data_of(rest, t).len() == 0 && headers_of(rest, t).len() == 0);
    }
    assert(out.parts =~= tile.parts + data_of(parts, t));
    assert(out.packed =~= tile.packed + headers_of(parts, t));
}

/// A codestream's tiles are made of its tile-parts: each tile of the packet data and the
/// packed packet headers of the tile-parts that name it, in the order in which they
/// follow one another.
pub proof fn lemma_tiles_are_delivered(
    b: Seq<u8>,
    sot: int,
    h: HeaderView,
    chunks: Seq<Seq<u8>>,
) -> (parts: Seq<PartView>)
    requires
        0 <= sot,
        tiles_spec(b, sot, h, chunks) is Ok,
    ensures
        follow_one_another(b, sot, chunks, 0, parts),
        ({
            let tiles = tiles_spec(b, sot, h, chunks)->Ok_0;
            forall|t: int|
                0 <= t < tiles.len() ==> {
                    &&& (#[trigger] tiles[t]).index == t as u32
                    &&& tiles[t].data == join(data_of(parts, t))
                    &&& tiles[t].packed_headers == headers_of(parts, t)
                }
        }),
{
    let fresh = Seq::new(h.siz.num_tiles() as nat, |i: int| PartsView::fresh());
    let count = h.siz.components.len() as int;
    let parts = lemma_parts_are_delivered(b, sot, fresh, count, chunks, 0);
    let tiles = tiles_spec(b, sot, h, chunks)->Ok_0;
    let out = parts_from(b, sot, fresh, count, chunks, 0)->Ok_0;
    assert forall|t: int| 0 <= t < tiles.len() implies {
        &&& (#[trigger] tiles[t]).index == t as u32
        &&& tiles[t].data == join(data_of(parts, t))
        &&& tiles[t].packed_headers == headers_of(parts, t)
    } by {
        assert(out[t].parts == fresh[t].parts + data_of(parts, t));
        assert(Seq::<Seq<u8>>::empty() + data_of(parts, t) =~= data_of(parts, t));
        assert(Seq::<u8>::empty() + headers_of(parts, t) =~= headers_of(parts, t));
    }
    parts
}

/// The piece of a number is the one listed with it.
proof fn lemma_piece_listed(s: Seq<(u8, Seq<u8>)>, i: int)
    requires
        numbers_distinct(s),
        0 <= i < s.len(),
    ensures
        piece_of(s, s[i].0 as int) == s[i].1,
    decreases s.len(),
{
    if i < s.len() - 1 {
        assert(s[i].0 != s[s.len() - 1].0);
        assert(s.drop_last()[i] == s[i]);
        lemma_piece_listed(s.drop_last(), i);
    }
}

/// A number that is not listed has no piece.
proof fn lemma_piece_missing(s: Seq<(u8, Seq<u8>)>, z: int)
    requires
        forall|i: int| 0 <= i < s.len() ==> (#[trigger] s[i]).0 != z,
    ensures
        piece_of(s, z) == Seq::<u8>::empty(),
    decreases s.len(),
{
    if s.len() > 0 {
        assert(s.last() == s[s.len() - 1]);
        lemma_piece_missing(s.drop_last(), z);
    }
}

/// The payloads of numbered pieces, as they are listed.
pub open spec fn payloads(s: Seq<(u8, Seq<u8>)>) -> Seq<Seq<u8>> {
    Seq::new(s.len(), |i: int| s[i].1)
}

/// The pieces below a number, where they are listed in order.
proof fn lemma_listed_in_order(s: Seq<(u8, Seq<u8>)>, z: nat) -> (m: int)
    requires
        forall|i: int, j: int| 0 <= i < j < s.len() ==> (#[trigger] s[i]).0 < (#[trigger] s[j]).0,
    ensures
        0 <= m <= s.len(),
        forall|i: int| 0 <= i < m ==> (#[trigger] s[i]).0 < z,
        forall|i: int| m <= i < s.len() ==> (#[trigger] s[i]).0 >= z,
        joined_below(s, z) == join(payloads(s).take(m)),
    decreases z,
{
    if z == 0 {
        assert(payloads(s).take(0) =~= Seq::empty());
        0
    } else {
        let last = (z - 1) as nat;
        let m = lemma_listed_in_order(s, last);
        if m < s.len() && s[m].0 == last {
            lemma_piece_listed(s, m);
            let more = payloads(s).take(m + 1);
            assert(more.drop_last() =~= payloads(s).take(m));
            assert(more.last() == s[m].1);
            m + 1
        } else {
            assert forall|i: int| 0 <= i < s.len() implies (#[trigger] s[i]).0 != last by {
                if i > m {
                    assert(s[m].0 < s[i].0);
                }
            }
            lemma_piece_missing(s, last as int);
            assert(joined_below(s, last) + Seq::<u8>::empty() =~= joined_below(s, last));
            m
        }
    }
}

/// Packed packet headers whose pieces are listed in the order of their numbers are those
/// pieces, joined as they stand.
pub proof fn lemma_pieces_join_in_order(s: Seq<(u8, Seq<u8>)>)
    requires
        forall|i: int, j: int| 0 <= i < j < s.len() ==> (#[trigger] s[i]).0 < (#[trigger] s[j]).0,
    ensures
        stitched(s) == Ok::<Seq<u8>, ErrorKind>(join(payloads(s))),
{
    let m = lemma_listed_in_order(s, 256);
    if m < s.len() {
        assert(s[m].0 >= 256);
    }
    assert(payloads(s).take(m) =~= payloads(s));
}

/// The order in which the pieces are listed has no part in what they join to.
pub proof fn lemma_pieces_in_any_order(s: Seq<(u8, Seq<u8>)>, t: Seq<(u8, Seq<u8>)>)
    requires
        numbers_distinct(s),
        numbers_distinct(t),
        forall|p: (u8, Seq<u8>)| #[trigger] s.contains(p) <==> t.contains(p),
    ensures
        stitched(s) == stitched(t),
{
    lemma_same_pieces(s, t, 256);
}

/// The pieces below a number, listed in either order.
proof fn lemma_same_pieces(s: Seq<(u8, Seq<u8>)>, t: Seq<(u8, Seq<u8>)>, z: nat)
    requires
        numbers_distinct(s),
        numbers_distinct(t),
        forall|p: (u8, Seq<u8>)| #[trigger] s.contains(p) <==> t.contains(p),
    ensures
        joined_below(s, z) == joined_below(t, z),
    decreases z,
{
    if z > 0 {
        let last = z - 1;
        lemma_same_pieces(s, t, last as nat);
        if exists|i: int| 0 <= i < s.len() && (#[trigger] s[i]).0 == last {
            let i = choose|i: int| 0 <= i < s.len() && (#[trigger] s[i]).0 == last;
            assert(s.contains(s[i]));
            let j = t.index_of(s[i]);
            lemma_piece_listed(s, i);
            lemma_piece_listed(t, j);
        } else {
            assert forall|j: int| 0 <= j < t.len() implies (#[trigger] t[j]).0 != last by {
                assert(t.contains(t[j]));
                assert(s.contains(t[j]));
                let i = s.index_of(t[j]);
                assert(s[i] == t[j]);
            }
            lemma_piece_missing(s, last);
            lemma_piece_missing(t, last);
        }
    }
}

} // verus!
