//! Bytes behind the closing EOC are ignored where every tile-part declares its
//! length.

use super::cursor::{be16, be32, segment_body, segment_end, segment_fits};
use super::main_header::{main_spec, walk_from, walk_spec, SegmentView};
use super::markers::marker;
use super::tile_parts::{
    lemma_part_end, part_spec, parts_from, tiles_spec, PartHeaderView, PartsView,
};
use super::{is_jp2, parse_spec, HeaderView, JP2_SIGNATURE};
use crate::math::max_int;
use vstd::prelude::*;

verus! {

/// The tile-part at `at` and those behind it declare their lengths: `Psot`, four
/// bytes behind the tile index, is not 0.
pub open spec fn declared_from(b: Seq<u8>, at: int) -> bool
    decreases max_int(0, b.len() - at),
{
    let psot = be32(b, at + 6);
    &&& at < b.len()
    &&& psot > 0
    &&& be16(b, at + psot) == marker::EOC || declared_from(b, at + psot)
}

/// Every tile-part of a codestream declares its length.
pub open spec fn lengths_declared(b: Seq<u8>) -> bool {
    main_spec(b) matches Ok(v) && declared_from(b, v.1)
}

/// A marker segment is the same with more bytes behind it.
proof fn lemma_segment_kept(b: Seq<u8>, t: Seq<u8>, pos: int)
    requires
        0 <= pos,
        segment_fits(b, pos),
    ensures
        segment_fits(b + t, pos),
        segment_end(b + t, pos) == segment_end(b, pos),
        segment_body(b + t, pos) == segment_body(b, pos),
{
    assert(segment_body(b + t, pos) =~= segment_body(b, pos));
}

/// A main header's walk is the same with more bytes behind it.
proof fn lemma_walk_kept(b: Seq<u8>, t: Seq<u8>, pos: int, before: Seq<SegmentView>)
    requires
        walk_from(b, pos, before) is Ok,
    ensures
        walk_from(b + t, pos, before) == walk_from(b, pos, before),
    decreases max_int(0, b.len() - pos),
{
    let code = be16(b, pos) as u16;
    assert(be16(b + t, pos) == be16(b, pos));
    if code == marker::SOT {
    } else if !marker::has_segment(code) {
        lemma_walk_kept(b, t, pos + 2, before.push(SegmentView { code, body: Seq::empty() }));
    } else {
        lemma_segment_kept(b, t, pos + 2);
        lemma_walk_kept(
            b,
            t,
            segment_end(b, pos + 2),
            before.push(SegmentView { code, body: segment_body(b, pos + 2) }),
        );
    }
}

/// A main header is the same with more bytes behind it.
proof fn lemma_main_kept(b: Seq<u8>, t: Seq<u8>)
    requires
        main_spec(b) is Ok,
    ensures
        main_spec(b + t) == main_spec(b),
        !is_jp2(b + t),
{
    assert(be16(b + t, 0) == be16(b, 0));
    lemma_walk_kept(b, t, 2, Seq::empty());
    assert(walk_spec(b + t) == walk_spec(b));
    assert(JP2_SIGNATURE@[0] == 0);
    assert((b + t)[0] == 0xFF);
}

/// A tile-part header is the same with more bytes behind it.
proof fn lemma_header_kept(
    p: PartHeaderView,
    b: Seq<u8>,
    t: Seq<u8>,
    pos: int,
    count: int,
    first: bool,
)
    requires
        p.absorb_from(b, pos, count, first) is Ok,
    ensures
        p.absorb_from(b + t, pos, count, first) == p.absorb_from(b, pos, count, first),
    decreases max_int(0, b.len() - pos),
{
    let code = be16(b, pos) as u16;
    assert(be16(b + t, pos) == be16(b, pos));
    if code != marker::SOD {
        lemma_segment_kept(b, t, pos + 2);
        match p.absorb(code, segment_body(b, pos + 2), count) {
            Ok(next) => {
                lemma_header_kept(next, b, t, segment_end(b, pos + 2), count, first);
            },
            Err(_) => {},
        }
    }
}

/// A tile-part that declares its length is the same with more bytes behind it.
proof fn lemma_part_kept(
    b: Seq<u8>,
    t: Seq<u8>,
    at: int,
    tiles: Seq<PartsView>,
    count: int,
    chunks: Seq<Seq<u8>>,
    k: int,
)
    requires
        0 <= at,
        be32(b, at + 6) > 0,
        part_spec(b, at, tiles, count, chunks, k) is Ok,
    ensures
        part_spec(b + t, at, tiles, count, chunks, k) == part_spec(
            b,
            at,
            tiles,
            count,
            chunks,
            k,
        ),
        part_spec(b, at, tiles, count, chunks, k)->Ok_0.1 == at + be32(b, at + 6),
{
    let body = segment_body(b, at + 2);
    let sot = super::lists::sot_spec(body);
    lemma_segment_kept(b, t, at + 2);
    assert(be16(b + t, at) == be16(b, at));
    assert(body[2] == b[at + 6] && body[3] == b[at + 7] && body[4] == b[at + 8] && body[5] == b[at
        + 9]);
    assert(sot.psot == be32(b, at + 6));
    lemma_header_kept(
        PartHeaderView::empty(),
        b,
        t,
        segment_end(b, at + 2),
        count,
        sot.tile_part_index == 0,
    );
    let start = PartHeaderView::empty().absorb_from(
        b,
        segment_end(b, at + 2),
        count,
        sot.tile_part_index == 0,
    )->Ok_0.1;
    lemma_header_start(
        PartHeaderView::empty(),
        b,
        segment_end(b, at + 2),
        count,
        sot.tile_part_index == 0,
    );
    assert((b + t).subrange(start, at + sot.psot) =~= b.subrange(start, at + sot.psot));
}

/// The packet data starts within the bytes.
proof fn lemma_header_start(p: PartHeaderView, b: Seq<u8>, pos: int, count: int, first: bool)
    ensures
        p.absorb_from(b, pos, count, first) matches Ok(v) ==> 0 <= v.1,
    decreases max_int(0, b.len() - pos),
{
    let code = be16(b, pos) as u16;
    if 0 <= pos && pos + 2 <= b.len() && code != marker::SOD && segment_fits(b, pos + 2) {
        match p.absorb(code, segment_body(b, pos + 2), count) {
            Ok(next) => {
                lemma_header_start(next, b, segment_end(b, pos + 2), count, first);
            },
            Err(_) => {},
        }
    }
}

/// The tile-parts from the one at `at` on are the same with more bytes behind them.
proof fn lemma_parts_kept(
    b: Seq<u8>,
    t: Seq<u8>,
    at: int,
    tiles: Seq<PartsView>,
    count: int,
    chunks: Seq<Seq<u8>>,
    k: int,
)
    requires
        0 <= at,
        declared_from(b, at),
        parts_from(b, at, tiles, count, chunks, k) is Ok,
    ensures
        parts_from(b + t, at, tiles, count, chunks, k) == parts_from(
            b,
            at,
            tiles,
            count,
            chunks,
            k,
        ),
    decreases max_int(0, b.len() - at),
{
    lemma_part_kept(b, t, at, tiles, count, chunks, k);
    lemma_part_end(b, at, tiles, count, chunks, k);
    let (next, end) = part_spec(b, at, tiles, count, chunks, k)->Ok_0;
    assert(be16(b + t, end) == be16(b, end));
    if be16(b, end) == marker::SOT {
        lemma_parts_kept(b, t, end, next, count, chunks, k + 1);
    }
}

/// The first SOT lies behind the start.
proof fn lemma_walk_forward(b: Seq<u8>, pos: int, before: Seq<SegmentView>)
    requires
        0 <= pos,
    ensures
        walk_from(b, pos, before) matches Ok(v) ==> pos <= v.1,
    decreases max_int(0, b.len() - pos),
{
    if pos + 2 <= b.len() {
        let code = be16(b, pos) as u16;
        if !marker::has_segment(code) {
            lemma_walk_forward(
                b,
                pos + 2,
                before.push(SegmentView { code, body: Seq::empty() }),
            );
        } else if segment_fits(b, pos + 2) {
            lemma_walk_forward(
                b,
                segment_end(b, pos + 2),
                before.push(SegmentView { code, body: segment_body(b, pos + 2) }),
            );
        }
    }
}

/// The first SOT of a main header.
proof fn lemma_sot_found(b: Seq<u8>)
    ensures
        main_spec(b) matches Ok(v) ==> 2 <= v.1,
{
    lemma_walk_forward(b, 2, Seq::empty());
}

/// The tiles of a codestream are the same with more bytes behind it.
proof fn lemma_tiles_kept(b: Seq<u8>, t: Seq<u8>, sot: int, h: HeaderView, chunks: Seq<Seq<u8>>)
    requires
        0 <= sot,
        declared_from(b, sot),
        tiles_spec(b, sot, h, chunks) is Ok,
    ensures
        tiles_spec(b + t, sot, h, chunks) == tiles_spec(b, sot, h, chunks),
{
    let fresh = Seq::new(h.siz.num_tiles() as nat, |i: int| PartsView::fresh());
    lemma_parts_kept(b, t, sot, fresh, h.siz.components.len() as int, chunks, 0);
}

/// Bytes behind the closing EOC change nothing: a codestream that parses, and whose
/// tile-parts all declare their lengths, parses to the same whatever follows it.
pub proof fn lemma_trailing_bytes_are_ignored(b: Seq<u8>, t: Seq<u8>)
    requires
        parse_spec(b) is Ok,
        lengths_declared(b),
    ensures
        parse_spec(b + t) == parse_spec(b),
{
    let (h, sot, chunks) = main_spec(b)->Ok_0;
    lemma_main_kept(b, t);
    lemma_sot_found(b);
    lemma_tiles_kept(b, t, sot, h, chunks);
}

} // verus!
