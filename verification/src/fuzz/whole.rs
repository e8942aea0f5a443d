//! Every codestream that [`wrap`](super::scaffold::wrap) writes parses, and hands the
//! packet reader the untrusted bytes.

use super::head::{
    chunks_of, header_of, lemma_halves_stitched, lemma_header_legal, lemma_main_parts,
    lemma_main_read, lemma_none_joined, lemma_packed_len, lemma_siz_legal, lemma_split,
    lemma_word16_at, packs_in_main, packs_in_part, pieces_of, stands_at, tiles_of,
};
use super::parts::{
    grid_sot, grid_tile, grid_tiles, lemma_bare_header, lemma_eighth, lemma_grid_at,
    lemma_grid_read, lemma_packed_header, lemma_single_part, one_part, part_bytes,
};
use super::scaffold::{
    data_of, eighth, grid_parts, halves_spec, main_part, packed_of, shape_of, single_part, sot_spec,
    word16, wrap_spec,
};
use crate::codestream::lists::Sot;
use crate::codestream::main_header::main_spec;
use crate::codestream::resolve::{lemma_no_overrides, resolve_spec};
use crate::codestream::tile_parts::{
    packed_spec, parts_from, tiles_spec, PartHeaderView, PartsView,
};
use crate::codestream::{
    is_jp2, parse_spec, tiles_fault, CodestreamView, HeaderView, TileHeaderView, TileView,
    JP2_SIGNATURE,
};
use crate::error::ErrorKind;
use crate::tier2::join;
use vstd::prelude::*;

verus! {

/// The untrusted bytes that reach tile `t`.
pub open spec fn tile_data(variant: u8, b: Seq<u8>, t: int) -> Seq<u8> {
    let data = data_of(shape_of(variant), b);
    if shape_of(variant) == 6 {
        eighth(data, t) + eighth(data, t + 4)
    } else {
        data
    }
}

/// The tiles of a scaffold.
pub open spec fn tiles_in(variant: u8, b: Seq<u8>) -> Seq<TileView> {
    Seq::new(
        tiles_of(shape_of(variant)),
        |t: int|
            TileView {
                index: t as u32,
                header: TileHeaderView::empty(),
                data: tile_data(variant, b, t),
                packed_headers: packed_of(shape_of(variant), b),
            },
    )
}

/// A tile-part's marks: packed packet headers, or none.
pub open spec fn marks_of(variant: u8, b: Seq<u8>) -> Seq<u8> {
    if packs_in_part(variant) {
        halves_spec(0xFF61, packed_of(shape_of(variant), b))
    } else {
        Seq::empty()
    }
}

/// The header of the one tile-part.
pub open spec fn part_of(variant: u8, b: Seq<u8>) -> PartHeaderView {
    if packs_in_part(variant) {
        PartHeaderView {
            ppt: pieces_of(packed_of(shape_of(variant), b)),
            ..PartHeaderView::empty()
        }
    } else {
        PartHeaderView::empty()
    }
}

/// The packed headers of the one tile-part.
proof fn lemma_part_packed(variant: u8, b: Seq<u8>)
    ensures
        packed_spec(part_of(variant, b).ppt, chunks_of(variant, b), 0) == Ok::<Seq<u8>, ErrorKind>(
            packed_of(shape_of(variant), b),
        ),
{
    let packed = packed_of(shape_of(variant), b);
    lemma_packed_len(shape_of(variant), b);
    if packs_in_part(variant) {
        lemma_halves_stitched(packed);
    } else if !packs_in_main(variant) {
        lemma_none_joined(256);
        assert(packed =~= Seq::empty());
    }
}

/// The header of the one tile-part is read.
proof fn lemma_part_header(w: Seq<u8>, at: int, variant: u8, b: Seq<u8>, count: int, sot: Sot)
    requires
        stands_at(
            w,
            at,
            part_bytes(sot, marks_of(variant, b), data_of(shape_of(variant), b)),
        ),
    ensures
        PartHeaderView::empty().absorb_from(w, at + 12, count, true) == Ok::<
            (PartHeaderView, int),
            ErrorKind,
        >((part_of(variant, b), at + 14 + marks_of(variant, b).len())),
{
    let data = data_of(shape_of(variant), b);
    if packs_in_part(variant) {
        lemma_packed_len(shape_of(variant), b);
        lemma_packed_header(w, at, count, true, sot, packed_of(shape_of(variant), b), data);
    } else {
        lemma_bare_header(w, at, count, true, sot, data);
    }
}

/// The one tile-part is read into the one tile.
proof fn lemma_single_read(w: Seq<u8>, at: int, variant: u8, b: Seq<u8>, count: int)
    requires
        b.len() <= 0xFFFF_0000,
        stands_at(w, at, single_part(variant, b)),
        stands_at(w, at + single_part(variant, b).len(), word16(0xFFD9)),
    ensures
        parts_from(w, at, seq![PartsView::fresh()], count, chunks_of(variant, b), 0) == Ok::<
            Seq<PartsView>,
            ErrorKind,
        >(
            seq![one_part(data_of(shape_of(variant), b), packed_of(shape_of(variant), b))],
        ),
        stands_at(w, at, word16(0xFF90)),
{
    let shape = shape_of(variant);
    let (data, marks) = (data_of(shape, b), marks_of(variant, b));
    lemma_packed_len(shape, b);
    assert(marks.len() <= 1000);
    let sot = Sot {
        tile_index: 0,
        psot: (14 + marks.len() + data.len()) as u32,
        tile_part_index: 0,
        num_tile_parts: 1,
    };
    let head = sot_spec(0, 0, 1, 2 + marks.len() as int + data.len());
    let rest = marks + word16(0xFF93) + data;
    assert(single_part(variant, b) =~= head + rest);
    assert(part_bytes(sot, marks, data) =~= head + rest);
    assert(head.len() == 12);
    lemma_part_header(w, at, variant, b, count, sot);
    lemma_part_packed(variant, b);
    lemma_single_part(
        w,
        at,
        count,
        chunks_of(variant, b),
        marks,
        data,
        part_of(variant, b),
        packed_of(shape, b),
    );
    lemma_split(w, at, head, rest);
    lemma_opens_with_sot(w, at, 0, 0, 1, 2 + marks.len() as int + data.len());
}

/// A SOT segment opens with its marker.
proof fn lemma_opens_with_sot(w: Seq<u8>, at: int, tile: int, part: u8, parts: u8, rest: int)
    requires
        stands_at(w, at, sot_spec(tile, part, parts, rest)),
    ensures
        stands_at(w, at, word16(0xFF90)),
{
    let all = sot_spec(tile, part, parts, rest);
    assert(all =~= word16(0xFF90) + all.skip(2));
    lemma_split(w, at, word16(0xFF90), all.skip(2));
}

/// Data in one piece is that piece.
proof fn lemma_join_one(x: Seq<u8>)
    ensures
        join(seq![x]) == x,
{
    reveal_with_fuel(join, 2);
    assert(seq![x].drop_last() =~= Seq::<Seq<u8>>::empty());
    assert(join(seq![x]) =~= x);
}

/// Data in two pieces is the one behind the other.
proof fn lemma_join_two(s: Seq<Seq<u8>>)
    requires
        s.len() == 2,
    ensures
        join(s) == s[0] + s[1],
{
    lemma_join_one(s[0]);
    assert(s.drop_last() =~= seq![s[0]]);
}

/// The one tile of a scaffold is read.
proof fn lemma_single_tiles(w: Seq<u8>, at: int, variant: u8, b: Seq<u8>)
    requires
        b.len() <= 0xFFFF_0000,
        shape_of(variant) != 6,
        stands_at(w, at, single_part(variant, b)),
        stands_at(w, at + single_part(variant, b).len(), word16(0xFFD9)),
    ensures
        tiles_spec(w, at, header_of(variant, b), chunks_of(variant, b)) == Ok::<
            Seq<TileView>,
            ErrorKind,
        >(tiles_in(variant, b)),
{
    let shape = shape_of(variant);
    let h = header_of(variant, b);
    lemma_siz_legal(shape);
    let fresh = Seq::new(h.siz.num_tiles() as nat, |i: int| PartsView::fresh());
    assert(fresh =~= seq![PartsView::fresh()]);
    lemma_single_read(w, at, variant, b, h.siz.components.len() as int);
    lemma_join_one(data_of(shape, b));
    let tiles = seq![one_part(data_of(shape, b), packed_of(shape, b))];
    assert(Seq::new(
        tiles.len(),
        |i: int|
            TileView {
                index: i as u32,
                header: tiles[i].header,
                data: join(tiles[i].parts),
                packed_headers: tiles[i].packed,
            },
    ) =~= tiles_in(variant, b));
}

/// The four tiles of a grid are read.
proof fn lemma_grid_spec(w: Seq<u8>, at: int, variant: u8, b: Seq<u8>)
    requires
        b.len() <= 0xFFFF_0000,
        shape_of(variant) == 6,
        stands_at(w, at, grid_parts(data_of(6, b), 8)),
        stands_at(w, at + grid_parts(data_of(6, b), 8).len(), word16(0xFFD9)),
    ensures
        tiles_spec(w, at, header_of(variant, b), chunks_of(variant, b)) == Ok::<
            Seq<TileView>,
            ErrorKind,
        >(tiles_in(variant, b)),
{
    let h = header_of(variant, b);
    let data = data_of(6, b);
    lemma_siz_legal(6);
    lemma_packed_len(6, b);
    let fresh = Seq::new(h.siz.num_tiles() as nat, |i: int| PartsView::fresh());
    assert forall|t: int| 0 <= t < 4 implies #[trigger] grid_tile(data, 0, t)
        == PartsView::fresh() by {
        assert((0 + 3 - t) / 4 == 0);
        assert(grid_tile(data, 0, t).parts =~= PartsView::fresh().parts);
    }
    assert(fresh =~= grid_tiles(data, 0));
    lemma_grid_read(w, at, h.siz.components.len() as int, data, 0);
    let tiles = grid_tiles(data, 8);
    assert forall|t: int| 0 <= t < 4 implies (#[trigger] tiles[t]).complete() && join(
        tiles[t].parts,
    ) == tile_data(variant, b, t) by {
        assert((8 + 3 - t) / 4 == 2);
        lemma_join_two(tiles[t].parts);
    }
    assert(packed_of(6, b) =~= Seq::<u8>::empty());
    assert(Seq::new(
        tiles.len(),
        |i: int|
            TileView {
                index: i as u32,
                header: tiles[i].header,
                data: join(tiles[i].parts),
                packed_headers: tiles[i].packed,
            },
    ) =~= tiles_in(variant, b));
}

/// Tiles without markers of their own are never at fault.
proof fn lemma_tiles_legal(h: HeaderView, tiles: Seq<TileView>, i: int)
    requires
        h.wf(),
        resolve_spec(h, TileHeaderView::empty()) == Ok::<HeaderView, ErrorKind>(h),
        forall|t: int|
            0 <= t < tiles.len() ==> (#[trigger] tiles[t]).header == TileHeaderView::empty(),
        0 <= i <= tiles.len(),
    ensures
        tiles_fault(h, tiles, i) is None,
    decreases tiles.len() - i,
{
    if i < tiles.len() {
        lemma_tiles_legal(h, tiles, i + 1);
    }
}

/// What opens with SOC is no JP2 file.
proof fn lemma_raw(w: Seq<u8>)
    requires
        stands_at(w, 0, word16(0xFF4F)),
    ensures
        !is_jp2(w),
{
    lemma_word16_at(w, 0, 0xFF4F);
    assert(JP2_SIGNATURE@[0] == 0);
    assert(w[0] == 0xFF);
}

/// The parts of a scaffold stand one after the other.
proof fn lemma_layout(variant: u8, b: Seq<u8>)
    ensures
        ({
            let (w, main) = (wrap_spec(variant, b), main_part(variant, b));
            let body = if shape_of(variant) == 6 {
                grid_parts(data_of(6, b), 8)
            } else {
                single_part(variant, b)
            };
            &&& stands_at(w, 0, main)
            &&& stands_at(w, main.len() as int, body)
            &&& stands_at(w, (main.len() + body.len()) as int, word16(0xFFD9))
        }),
{
    let (w, main) = (wrap_spec(variant, b), main_part(variant, b));
    let body = if shape_of(variant) == 6 {
        grid_parts(data_of(6, b), 8)
    } else {
        single_part(variant, b)
    };
    assert(w.subrange(0, w.len() as int) =~= w);
    lemma_split(w, 0, main + body, word16(0xFFD9));
    lemma_split(w, 0, main, body);
}

/// A scaffold opens with SOC.
proof fn lemma_opens_with_soc(w: Seq<u8>, variant: u8, b: Seq<u8>)
    requires
        stands_at(w, 0, main_part(variant, b)),
    ensures
        stands_at(w, 0, word16(0xFF4F)),
{
    let main = main_part(variant, b);
    lemma_main_parts(variant, b);
    assert(main =~= word16(0xFF4F) + main.skip(2));
    lemma_split(w, 0, word16(0xFF4F), main.skip(2));
}

/// The tile-parts open with SOT.
proof fn lemma_parts_open(w: Seq<u8>, at: int, data: Seq<u8>)
    requires
        data.len() <= 0xFFFF_0000,
        stands_at(w, at, grid_parts(data, 8)),
    ensures
        stands_at(w, at, word16(0xFF90)),
{
    lemma_grid_at(w, at, data, 8, 0);
    lemma_eighth(data, 0);
    let (sot, part) = (grid_sot(data, 0), eighth(data, 0));
    let head = sot_spec(0, 0, 2, sot.psot - 12);
    lemma_split(w, at, head, Seq::<u8>::empty() + word16(0xFF93) + part);
    lemma_opens_with_sot(w, at, 0, 0, 2, sot.psot - 12);
}

/// The tile-parts of a scaffold are read into its tiles.
proof fn lemma_tiles_read(variant: u8, b: Seq<u8>)
    requires
        b.len() <= 0xFFFF_0000,
    ensures
        ({
            let (w, at) = (wrap_spec(variant, b), main_part(variant, b).len() as int);
            &&& stands_at(w, at, word16(0xFF90))
            &&& tiles_spec(w, at, header_of(variant, b), chunks_of(variant, b)) == Ok::<
                Seq<TileView>,
                ErrorKind,
            >(tiles_in(variant, b))
        }),
{
    let (w, at) = (wrap_spec(variant, b), main_part(variant, b).len() as int);
    lemma_layout(variant, b);
    if shape_of(variant) == 6 {
        lemma_packed_len(6, b);
        lemma_parts_open(w, at, data_of(6, b));
        lemma_grid_spec(w, at, variant, b);
    } else {
        lemma_single_read(w, at, variant, b, 0);
        lemma_single_tiles(w, at, variant, b);
    }
}

/// A raw codestream without a fault parses.
proof fn lemma_parse_from(
    w: Seq<u8>,
    h: HeaderView,
    sot: int,
    chunks: Seq<Seq<u8>>,
    tiles: Seq<TileView>,
)
    requires
        !is_jp2(w),
        main_spec(w) == Ok::<(HeaderView, int, Seq<Seq<u8>>), ErrorKind>((h, sot, chunks)),
        tiles_spec(w, sot, h, chunks) == Ok::<Seq<TileView>, ErrorKind>(tiles),
        tiles_fault(h, tiles, 0) is None,
    ensures
        parse_spec(w) == Ok::<CodestreamView, ErrorKind>(CodestreamView { header: h, tiles }),
{
}

/// The tiles of a scaffold are not at fault.
proof fn lemma_scaffold_tiles_legal(variant: u8, b: Seq<u8>)
    ensures
        tiles_fault(header_of(variant, b), tiles_in(variant, b), 0) is None,
{
    let h = header_of(variant, b);
    lemma_header_legal(variant, b);
    lemma_no_overrides(h);
    lemma_tiles_legal(h, tiles_in(variant, b), 0);
}

/// Every scaffold parses: whatever the variant byte and the untrusted bytes are, the
/// header is the one that the variant declares, and the untrusted bytes reach the
/// tiles' packet data and packed headers. The tile-parts' lengths must fit their
/// fields.
pub proof fn lemma_every_scaffold_parses(variant: u8, b: Seq<u8>)
    requires
        b.len() <= 0xFFFF_0000,
    ensures
        parse_spec(wrap_spec(variant, b)) == Ok::<CodestreamView, ErrorKind>(
            CodestreamView { header: header_of(variant, b), tiles: tiles_in(variant, b) },
        ),
{
    let w = wrap_spec(variant, b);
    let (h, tiles) = (header_of(variant, b), tiles_in(variant, b));
    lemma_layout(variant, b);
    lemma_opens_with_soc(w, variant, b);
    lemma_raw(w);
    lemma_tiles_read(variant, b);
    lemma_main_read(w, variant, b);
    lemma_scaffold_tiles_legal(variant, b);
    lemma_parse_from(
        w,
        h,
        main_part(variant, b).len() as int,
        chunks_of(variant, b),
        tiles,
    );
}

} // verus!
