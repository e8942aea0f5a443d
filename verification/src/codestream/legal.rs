//! What a parsed codestream promises the later stages: a legal grid, legal
//! precincts in every tile, and parameters that resolve for every tile.

use super::cursor::{be16, segment_body, segment_end, segment_fits};
use super::grid::grid_legal;
use super::main_header::{
    lemma_siz_sampling, main_spec, sampling_legal, walk_spec, GatheredView, SegmentView,
};
use super::markers::marker;
use super::markers::SizView;
use super::resolve::{override_for, resolve_spec, tile_params};
use super::segments::{coc_spec, cod_spec, coding_spec, precinct_illegal, precincts_fault};
use super::tile_parts::{
    lemma_part_end, lemma_tiles_in_range, part_spec, parts_from, PartHeaderView, PartsView,
};
use super::{
    parse_spec, tiles_fault, wavelets_differ, CodestreamView, HeaderView, TileHeaderView, TileView,
};
use crate::math::max_int;
use crate::tier2::geometry::{header_legal, precincts_legal};
use vstd::prelude::*;

verus! {

/// Without a fault, no precinct size byte is illegal.
proof fn lemma_precincts_fault(b: Seq<u8>, pos: int, r: int, last: int, i: int)
    requires
        precincts_fault(b, pos, r, last) is None,
        r <= i <= last,
    ensures
        !precinct_illegal(b[pos + i], i),
    decreases max_int(0, last - r + 1),
{
    if r < i {
        lemma_precincts_fault(b, pos, r + 1, last, i);
    }
}

/// A decoded coding has legal precincts.
proof fn lemma_coding_legal(b: Seq<u8>, pos: int, explicit: bool)
    ensures
        coding_spec(b, pos, explicit) matches Ok(v) ==> precincts_legal(v.0),
{
    match coding_spec(b, pos, explicit) {
        Ok((coding, _)) => {
            assert forall|r: int| 0 <= r < coding.precinct_sizes.len() implies ({
                let (ppx, ppy) = #[trigger] coding.precinct_sizes[r];
                ppx <= 15 && ppy <= 15 && (r > 0 ==> ppx >= 1 && ppy >= 1)
            }) by {
                lemma_precincts_fault(b, pos + 5, 0, b[pos] as int, r);
            }
        },
        Err(_) => {},
    }
}

/// A decoded COD has legal precincts.
proof fn lemma_cod_legal(b: Seq<u8>)
    ensures
        cod_spec(b) matches Ok(c) ==> precincts_legal(c.coding),
{
    lemma_coding_legal(b, 5, b[0] % 2 == 1);
}

/// A decoded COC has legal precincts.
proof fn lemma_coc_legal(b: Seq<u8>, count: int)
    ensures
        coc_spec(b, count) matches Ok(v) ==> precincts_legal(v.1),
{
    let at = super::segments::index_width(count);
    lemma_coding_legal(b, at + 1, b[at] == 1);
}

/// What the main header's segments gave has legal precincts.
spec fn gathered_legal(g: GatheredView) -> bool {
    &&& g.cod matches Some(c) ==> precincts_legal(c.coding)
    &&& forall|i: int|
        0 <= i < g.coc.len() ==> (#[trigger] g.coc[i] matches Some(c) ==> precincts_legal(c))
}

/// Interpreting segments keeps the precincts legal.
proof fn lemma_gathered_legal(g: GatheredView, segs: Seq<SegmentView>, i: int, siz: SizView)
    requires
        gathered_legal(g),
        g.coc.len() == siz.components.len(),
    ensures
        g.absorb_from(segs, i, siz) matches Ok(done) ==> gathered_legal(done) && done.coc.len()
            == siz.components.len(),
    decreases max_int(0, segs.len() - i),
{
    if 0 <= i < segs.len() {
        lemma_cod_legal(segs[i].body);
        lemma_coc_legal(segs[i].body, siz.components.len() as int);
        match g.absorb(segs[i], siz) {
            Ok(next) => {
                assert(gathered_legal(next));
                lemma_gathered_legal(next, segs, i + 1, siz);
            },
            Err(_) => {},
        }
    }
}

/// A parsed main header has a legal grid and legal precincts.
pub proof fn lemma_main_legal(b: Seq<u8>)
    ensures
        main_spec(b) matches Ok(v) ==> {
            &&& grid_legal(v.0.siz)
            &&& sampling_legal(v.0.siz)
            &&& 0 < v.0.siz.components.len() <= 16384
            &&& header_legal(v.0)
            &&& v.0.wf()
        },
{
    match main_spec(b) {
        Ok((h, _, _)) => {
            let (segs, _) = walk_spec(b)->Ok_0;
            lemma_siz_sampling(segs[0].body);
            let siz = h.siz;
            let empty = GatheredView::empty(siz.components.len());
            lemma_gathered_legal(empty, segs, 1, siz);
            let g = empty.absorb_from(segs, 1, siz)->Ok_0;
            assert forall|c: int| 0 <= c < h.components.len() implies precincts_legal(
                (#[trigger] h.components[c]).coding,
            ) by {
                assert(g.coc[c] matches Some(k) ==> precincts_legal(k));
            }
        },
        Err(_) => {},
    }
}

/// A tile's own markers have legal precincts.
pub open spec fn tile_legal(t: TileHeaderView) -> bool {
    &&& t.cod matches Some(c) ==> precincts_legal(c.coding)
    &&& forall|j: int| 0 <= j < t.coc.len() ==> precincts_legal((#[trigger] t.coc[j]).1)
}

/// Reading a tile-part header keeps the precincts legal.
proof fn lemma_part_header_legal(p: PartHeaderView, b: Seq<u8>, pos: int, count: int, first: bool)
    requires
        tile_legal(p.tile),
    ensures
        p.absorb_from(b, pos, count, first) matches Ok(v) ==> tile_legal(v.0.tile),
    decreases max_int(0, b.len() - pos),
{
    let code = be16(b, pos) as u16;
    if pos < 0 || pos + 2 > b.len() || code == marker::SOD || !PartHeaderView::allows(code)
        || !segment_fits(b, pos + 2) {
    } else {
        let body = segment_body(b, pos + 2);
        lemma_cod_legal(body);
        lemma_coc_legal(body, count);
        match p.absorb(code, body, count) {
            Ok(next) => {
                assert(tile_legal(next.tile));
                lemma_part_header_legal(next, b, segment_end(b, pos + 2), count, first);
            },
            Err(_) => {},
        }
    }
}

/// Reading the tile-parts keeps the precincts legal.
proof fn lemma_parts_legal(
    b: Seq<u8>,
    at: int,
    tiles: Seq<PartsView>,
    count: int,
    chunks: Seq<Seq<u8>>,
    k: int,
)
    requires
        forall|i: int| 0 <= i < tiles.len() ==> tile_legal((#[trigger] tiles[i]).header),
    ensures
        parts_from(b, at, tiles, count, chunks, k) matches Ok(done) ==> forall|i: int|
            0 <= i < done.len() ==> tile_legal((#[trigger] done[i]).header),
    decreases max_int(0, b.len() - at),
{
    lemma_part_end(b, at, tiles, count, chunks, k);
    match part_spec(b, at, tiles, count, chunks, k) {
        Ok((next, end)) => {
            let sot = super::lists::sot_spec(segment_body(b, at + 2));
            lemma_part_header_legal(
                PartHeaderView::empty(),
                b,
                segment_end(b, at + 2),
                count,
                sot.tile_part_index == 0,
            );
            if end + 2 <= b.len() && be16(b, end) != marker::EOC && be16(b, end) == marker::SOT {
                lemma_parts_legal(b, end, next, count, chunks, k + 1);
            }
        },
        Err(_) => {},
    }
}

/// An override that names a component is one of those listed.
proof fn lemma_override_listed<T>(s: Seq<(int, T)>, i: int)
    ensures
        override_for(s, i) matches Some(t) ==> exists|j: int|
            0 <= j < s.len() && #[trigger] s[j] == (i, t),
    decreases s.len(),
{
    if s.len() > 0 {
        if s.last().0 == i {
            assert(s[s.len() - 1] == (i, s.last().1));
        } else {
            lemma_override_listed(s.drop_last(), i);
            match override_for(s.drop_last(), i) {
                Some(t) => {
                    let j = choose|j: int|
                        0 <= j < s.drop_last().len() && #[trigger] s.drop_last()[j] == (i, t);
                    assert(s[j] == (i, t));
                },
                None => {},
            }
        }
    }
}

/// A tile's resolved parameters have legal precincts.
proof fn lemma_resolved_legal(main: HeaderView, t: TileHeaderView)
    requires
        header_legal(main),
        tile_legal(t),
    ensures
        header_legal(tile_params(main, t)),
{
    let h = tile_params(main, t);
    assert forall|c: int| 0 <= c < h.components.len() implies precincts_legal(
        (#[trigger] h.components[c]).coding,
    ) by {
        lemma_override_listed(t.coc, c);
        assert(precincts_legal(main.components[c].coding));
        match override_for(t.coc, c) {
            Some(k) => {
                let j = choose|j: int| 0 <= j < t.coc.len() && #[trigger] t.coc[j] == (c, k);
                assert(precincts_legal(t.coc[j].1));
            },
            None => {},
        }
    }
}

/// Every tile passes the check that all tiles together pass.
proof fn lemma_tile_without_fault(main: HeaderView, tiles: Seq<TileView>, i: int, j: int)
    requires
        0 <= i <= j < tiles.len(),
        tiles_fault(main, tiles, i) is None,
    ensures
        resolve_spec(main, tiles[j].header) is Ok,
        !wavelets_differ(resolve_spec(main, tiles[j].header)->Ok_0, main),
    decreases j - i,
{
    if i < j {
        lemma_tile_without_fault(main, tiles, i + 1, j);
    }
}

/// A codestream that the later stages can decode.
pub open spec fn decodable(cs: CodestreamView) -> bool {
    &&& cs.wf()
    &&& grid_legal(cs.header.siz)
    &&& sampling_legal(cs.header.siz)
    &&& 0 < cs.header.siz.components.len() <= 16384
    &&& cs.tiles.len() == cs.header.siz.num_tiles()
    &&& forall|i: int| 0 <= i < cs.tiles.len() ==> tile_decodable(cs.header, #[trigger] cs.tiles[i], i)
}

/// A tile that the later stages can decode: it has its place in the grid, and its
/// parameters resolve, are legal and keep every component's wavelet.
pub open spec fn tile_decodable(main: HeaderView, tile: TileView, i: int) -> bool {
    &&& tile.index == i
    &&& resolve_spec(main, tile.header) matches Ok(h)
    &&& header_legal(h)
    &&& !wavelets_differ(h, main)
}

/// Every parsed codestream can be decoded: its tiles fill a legal grid in order,
/// and each one's parameters resolve.
pub proof fn lemma_parsed_decodable(b: Seq<u8>)
    ensures
        parse_spec(b) matches Ok(cs) ==> decodable(cs),
{
    match parse_spec(b) {
        Ok(cs) => {
            lemma_main_legal(b);
            let (h, sot, chunks) = main_spec(b)->Ok_0;
            lemma_tiles_in_range(b, sot, h, chunks);
            let count = h.siz.components.len() as int;
            let fresh = Seq::new(h.siz.num_tiles() as nat, |i: int| PartsView::fresh());
            lemma_parts_legal(b, sot, fresh, count, chunks, 0);
            let done = parts_from(b, sot, fresh, count, chunks, 0)->Ok_0;
            assert forall|i: int| 0 <= i < cs.tiles.len() implies tile_decodable(
                cs.header,
                #[trigger] cs.tiles[i],
                i,
            ) by {
                lemma_tile_without_fault(h, cs.tiles, 0, i);
                assert(tile_legal(done[i].header));
                lemma_resolved_legal(h, cs.tiles[i].header);
            }
        },
        Err(_) => {},
    }
}

} // verus!
