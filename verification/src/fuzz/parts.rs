//! The tile-parts that [`wrap`](super::scaffold::wrap) writes are read back: the
//! untrusted bytes are the tiles' packet data.

use super::head::{
    lemma_seg_at, lemma_split, lemma_word16_at, lemma_word32_at, pieces_of, stands_at,
};
use super::scaffold::{
    eighth, grid_parts, halves_spec, seg_spec, sot_spec, word16, word32,
};
use crate::codestream::cursor::{be16, segment_body, segment_end, segment_fits};
use crate::codestream::lists::Sot;
use crate::codestream::markers::marker;
use crate::codestream::tile_parts::{packed_spec, part_spec, parts_from, PartHeaderView, PartsView};
use crate::codestream::TileHeaderView;
use crate::error::ErrorKind;
use vstd::prelude::*;

verus! {

/// A tile-part with its SOT: `marks` are the segments of its header.
pub open spec fn part_bytes(sot: Sot, marks: Seq<u8>, data: Seq<u8>) -> Seq<u8> {
    sot_spec(
        sot.tile_index as int,
        sot.tile_part_index,
        sot.num_tile_parts,
        sot.psot - 12,
    ) + (marks + word16(0xFF93) + data)
}

/// A SOT segment is read back.
proof fn lemma_sot_at(w: Seq<u8>, at: int, sot: Sot)
    requires
        sot.psot >= 12,
        stands_at(
            w,
            at,
            sot_spec(
                sot.tile_index as int,
                sot.tile_part_index,
                sot.num_tile_parts,
                sot.psot - 12,
            ),
        ),
    ensures
        be16(w, at) == marker::SOT,
        segment_fits(w, at + 2),
        segment_end(w, at + 2) == at + 12,
        segment_body(w, at + 2).len() == 8,
        crate::codestream::lists::sot_spec(segment_body(w, at + 2)) == sot,
{
    let (index, length) = (word16(sot.tile_index as int), word32(sot.psot as int));
    let numbers = seq![sot.tile_part_index, sot.num_tile_parts];
    let body = index + length + numbers;
    lemma_seg_at(w, at, 0xFF90, body);
    assert(body.subrange(0, body.len() as int) =~= body);
    lemma_split(body, 0, index + length, numbers);
    lemma_split(body, 0, index, length);
    lemma_word16_at(body, 0, sot.tile_index as int);
    lemma_word32_at(body, 2, sot.psot as int);
    assert(body[6] == sot.tile_part_index && body[7] == sot.num_tile_parts);
}

/// A tile-part is read, once its header is.
proof fn lemma_part_read(
    w: Seq<u8>,
    at: int,
    tiles: Seq<PartsView>,
    count: int,
    chunks: Seq<Seq<u8>>,
    k: int,
    sot: Sot,
    marks: Seq<u8>,
    data: Seq<u8>,
    part: PartHeaderView,
    packed: Seq<u8>,
)
    requires
        sot.psot == 14 + marks.len() + data.len(),
        stands_at(w, at, part_bytes(sot, marks, data)),
        (sot.tile_index as int) < tiles.len(),
        tiles[sot.tile_index as int].continues(sot),
        PartHeaderView::empty().absorb_from(w, at + 12, count, sot.tile_part_index == 0) == Ok::<
            (PartHeaderView, int),
            ErrorKind,
        >((part, at + 14 + marks.len())),
        packed_spec(part.ppt, chunks, k) == Ok::<Seq<u8>, ErrorKind>(packed),
    ensures
        part_spec(w, at, tiles, count, chunks, k) == Ok::<(Seq<PartsView>, int), ErrorKind>(
            (
                tiles.update(
                    sot.tile_index as int,
                    tiles[sot.tile_index as int].grown(sot, part.tile, packed, data),
                ),
                at + sot.psot,
            ),
        ),
{
    let head = sot_spec(
        sot.tile_index as int,
        sot.tile_part_index,
        sot.num_tile_parts,
        sot.psot - 12,
    );
    lemma_split(w, at, head, marks + word16(0xFF93) + data);
    assert(head.len() == 12);
    lemma_split(w, at + 12, marks + word16(0xFF93), data);
    lemma_sot_at(w, at, sot);
    assert(w.subrange(at + 14 + marks.len(), at + sot.psot) =~= data);
}

/// A tile-part header without markers is read.
pub proof fn lemma_bare_header(w: Seq<u8>, at: int, count: int, first: bool, sot: Sot, data: Seq<u8>)
    requires
        stands_at(w, at, part_bytes(sot, Seq::empty(), data)),
    ensures
        PartHeaderView::empty().absorb_from(w, at + 12, count, first) == Ok::<
            (PartHeaderView, int),
            ErrorKind,
        >((PartHeaderView::empty(), at + 14)),
{
    let head = sot_spec(
        sot.tile_index as int,
        sot.tile_part_index,
        sot.num_tile_parts,
        sot.psot - 12,
    );
    let none = Seq::<u8>::empty();
    lemma_split(w, at, head, none + word16(0xFF93) + data);
    assert(head.len() == 12);
    lemma_split(w, at + 12, none + word16(0xFF93), data);
    lemma_split(w, at + 12, none, word16(0xFF93));
    lemma_word16_at(w, at + 12, 0xFF93);
}

/// A PPT segment is taken in.
proof fn lemma_packed_piece(
    w: Seq<u8>,
    at: int,
    p: PartHeaderView,
    count: int,
    first: bool,
    z: u8,
    x: Seq<u8>,
)
    requires
        stands_at(w, at, seg_spec(0xFF61, seq![z] + x)),
        x.len() <= 1000,
    ensures
        p.absorb_from(w, at, count, first) == (PartHeaderView {
            ppt: p.ppt.push((z, x)),
            ..p
        }).absorb_from(w, at + 5 + x.len(), count, first),
{
    let body = seq![z] + x;
    lemma_seg_at(w, at, 0xFF61, body);
    assert(body.subrange(1, body.len() as int) =~= x);
}

/// A tile-part header with packed packet headers in halves is read.
pub proof fn lemma_packed_header(
    w: Seq<u8>,
    at: int,
    count: int,
    first: bool,
    sot: Sot,
    packed: Seq<u8>,
    data: Seq<u8>,
)
    requires
        packed.len() <= 255,
        stands_at(w, at, part_bytes(sot, halves_spec(0xFF61, packed), data)),
    ensures
        PartHeaderView::empty().absorb_from(w, at + 12, count, first) == Ok::<
            (PartHeaderView, int),
            ErrorKind,
        >(
            (
                PartHeaderView { ppt: pieces_of(packed), ..PartHeaderView::empty() },
                at + 14 + halves_spec(0xFF61, packed).len(),
            ),
        ),
{
    let head = sot_spec(
        sot.tile_index as int,
        sot.tile_part_index,
        sot.num_tile_parts,
        sot.psot - 12,
    );
    let marks = halves_spec(0xFF61, packed);
    let mid = packed.len() as int / 2;
    let (x, y) = (packed.skip(mid), packed.take(mid));
    let (sx, sy) = (seg_spec(0xFF61, seq![1u8] + x), seg_spec(0xFF61, seq![0u8] + y));
    lemma_split(w, at, head, marks + word16(0xFF93) + data);
    assert(head.len() == 12);
    lemma_split(w, at + 12, marks + word16(0xFF93), data);
    lemma_split(w, at + 12, marks, word16(0xFF93));
    lemma_split(w, at + 12, sx, sy);
    let none = PartHeaderView::empty();
    let one = PartHeaderView { ppt: none.ppt.push((1u8, x)), ..none };
    let two = PartHeaderView { ppt: one.ppt.push((0u8, y)), ..one };
    lemma_packed_piece(w, at + 12, none, count, first, 1, x);
    lemma_packed_piece(w, at + 12 + sx.len(), one, count, first, 0, y);
    assert(two.ppt =~= pieces_of(packed));
    lemma_word16_at(w, at + 12 + marks.len(), 0xFF93);
}

/// What is seen of a tile of one part.
pub open spec fn one_part(data: Seq<u8>, packed: Seq<u8>) -> PartsView {
    PartsView {
        parts: seq![data],
        declared: Some(1),
        header: TileHeaderView::empty(),
        packed,
    }
}

/// A codestream's only tile-part, read into its only tile.
pub proof fn lemma_single_part(
    w: Seq<u8>,
    at: int,
    count: int,
    chunks: Seq<Seq<u8>>,
    marks: Seq<u8>,
    data: Seq<u8>,
    part: PartHeaderView,
    packed: Seq<u8>,
)
    requires
        14 + marks.len() + data.len() <= u32::MAX,
        stands_at(
            w,
            at,
            sot_spec(0, 0, 1, 2 + marks.len() as int + data.len()) + (marks + word16(0xFF93)
                + data),
        ),
        stands_at(w, at + 14 + marks.len() + data.len(), word16(0xFFD9)),
        part.tile == TileHeaderView::empty(),
        PartHeaderView::empty().absorb_from(w, at + 12, count, true) == Ok::<
            (PartHeaderView, int),
            ErrorKind,
        >((part, at + 14 + marks.len())),
        packed_spec(part.ppt, chunks, 0) == Ok::<Seq<u8>, ErrorKind>(packed),
    ensures
        parts_from(w, at, seq![PartsView::fresh()], count, chunks, 0) == Ok::<
            Seq<PartsView>,
            ErrorKind,
        >(seq![one_part(data, packed)]),
{
    let tiles = seq![PartsView::fresh()];
    let sot = Sot {
        tile_index: 0,
        psot: (14 + marks.len() + data.len()) as u32,
        tile_part_index: 0,
        num_tile_parts: 1,
    };
    lemma_part_read(w, at, tiles, count, chunks, 0, sot, marks, data, part, packed);
    lemma_word16_at(w, at + sot.psot, 0xFFD9);
    let grown = tiles[0].grown(sot, part.tile, packed, data);
    assert(grown.parts =~= seq![data]);
    assert(grown.packed =~= packed);
    assert(tiles.update(0, grown) =~= seq![one_part(data, packed)]);
}

/// Tile-part `i` of the grid of four tiles.
pub open spec fn grid_sot(data: Seq<u8>, i: int) -> Sot {
    Sot {
        tile_index: (i % 4) as u16,
        psot: (14 + eighth(data, i).len()) as u32,
        tile_part_index: (i / 4) as u8,
        num_tile_parts: 2,
    }
}

/// What is seen of tile `t` after the first `n` tile-parts of the grid.
pub open spec fn grid_tile(data: Seq<u8>, n: int, t: int) -> PartsView {
    let seen = (n + 3 - t) / 4;
    PartsView {
        parts: Seq::new(seen as nat, |p: int| eighth(data, 4 * p + t)),
        declared: if seen > 0 {
            Some(2)
        } else {
            None
        },
        header: TileHeaderView::empty(),
        packed: Seq::empty(),
    }
}

/// What is seen of the four tiles after the first `n` tile-parts.
pub open spec fn grid_tiles(data: Seq<u8>, n: int) -> Seq<PartsView> {
    Seq::new(4, |t: int| grid_tile(data, n, t))
}

/// An eighth of the data is within it.
pub proof fn lemma_eighth(data: Seq<u8>, i: int)
    requires
        0 <= i < 8,
    ensures
        0 <= data.len() * i / 8 <= data.len() * (i + 1) / 8 <= data.len(),
        eighth(data, i).len() <= data.len(),
{
    let n = data.len() as int;
    assert(0 <= n * i <= n * (i + 1) <= n * 8) by (nonlinear_arith)
        requires
            0 <= i < 8,
            0 <= n,
    ;
}

/// The tile-parts of the grid stand one after the other.
pub proof fn lemma_grid_at(w: Seq<u8>, at: int, data: Seq<u8>, n: nat, i: int)
    requires
        0 <= i < n <= 8,
        data.len() + 14 <= u32::MAX,
        stands_at(w, at, grid_parts(data, n)),
    ensures
        stands_at(
            w,
            at + grid_parts(data, i as nat).len(),
            part_bytes(grid_sot(data, i), Seq::empty(), eighth(data, i)),
        ),
        grid_parts(data, (i + 1) as nat).len() == grid_parts(data, i as nat).len() + grid_sot(
            data,
            i,
        ).psot,
    decreases n,
{
    let last = n - 1;
    let before = grid_parts(data, last as nat);
    let part = eighth(data, last);
    lemma_eighth(data, last);
    lemma_eighth(data, i);
    let head = super::scaffold::sot_spec(last % 4, (last / 4) as u8, 2, 2 + part.len() as int);
    let bytes = part_bytes(grid_sot(data, last), Seq::empty(), part);
    assert(head.len() == 12);
    assert(bytes =~= head + word16(0xFF93) + part);
    assert(grid_parts(data, n) =~= before + bytes);
    lemma_split(w, at, before, bytes);
    if i < last {
        lemma_grid_at(w, at, data, last as nat, i);
    }
}

/// One more tile-part of the grid.
proof fn lemma_grid_grown(data: Seq<u8>, i: int)
    requires
        0 <= i < 8,
        data.len() + 14 <= u32::MAX,
    ensures
        ({
            let (sot, tiles) = (grid_sot(data, i), grid_tiles(data, i));
            let t = i % 4;
            &&& tiles[t].continues(sot)
            &&& sot.tile_index == t
            &&& tiles.update(
                t,
                tiles[t].grown(sot, TileHeaderView::empty(), Seq::empty(), eighth(data, i)),
            ) == grid_tiles(data, i + 1)
        }),
{
    lemma_eighth(data, i);
    let (sot, tiles) = (grid_sot(data, i), grid_tiles(data, i));
    let t = i % 4;
    let old_tile = grid_tile(data, i, t);
    let grown = old_tile.grown(sot, TileHeaderView::empty(), Seq::empty(), eighth(data, i));
    let seen = (i + 3 - t) / 4;
    assert(seen == i / 4 && 4 * seen + t == i);
    assert((i + 4 - t) / 4 == seen + 1);
    let next = grid_tile(data, i + 1, t);
    assert(grown.parts =~= next.parts);
    assert(grown.packed =~= next.packed);
    assert(grown.header.poc =~= next.header.poc);
    assert forall|u: int| 0 <= u < 4 && u != t implies grid_tile(data, i, u) == grid_tile(
        data,
        i + 1,
        u,
    ) by {
        assert((i + 3 - u) / 4 == (i + 4 - u) / 4);
    }
    assert(tiles.update(t, grown) =~= grid_tiles(data, i + 1));
}

/// No pieces of packed headers stitch together to none.
proof fn lemma_nothing_packed(i: int)
    ensures
        packed_spec(Seq::empty(), Seq::empty(), i) == Ok::<Seq<u8>, ErrorKind>(Seq::empty()),
{
    super::head::lemma_none_joined(256);
}

/// A tile-part without markers of its own is read.
proof fn lemma_bare_part(
    w: Seq<u8>,
    at: int,
    tiles: Seq<PartsView>,
    count: int,
    k: int,
    sot: Sot,
    data: Seq<u8>,
)
    requires
        sot.psot == 14 + data.len(),
        stands_at(w, at, part_bytes(sot, Seq::empty(), data)),
        (sot.tile_index as int) < tiles.len(),
        tiles[sot.tile_index as int].continues(sot),
    ensures
        part_spec(w, at, tiles, count, Seq::empty(), k) == Ok::<(Seq<PartsView>, int), ErrorKind>(
            (
                tiles.update(
                    sot.tile_index as int,
                    tiles[sot.tile_index as int].grown(
                        sot,
                        TileHeaderView::empty(),
                        Seq::empty(),
                        data,
                    ),
                ),
                at + sot.psot,
            ),
        ),
{
    let bare = PartHeaderView::empty();
    let none = Seq::<u8>::empty();
    lemma_bare_header(w, at, count, sot.tile_part_index == 0, sot, data);
    lemma_nothing_packed(k);
    lemma_part_read(w, at, tiles, count, Seq::empty(), k, sot, none, data, bare, none);
}

/// One tile-part of the grid is read.
proof fn lemma_grid_step(w: Seq<u8>, here: int, count: int, data: Seq<u8>, i: int)
    requires
        0 <= i < 8,
        data.len() + 14 <= u32::MAX,
        stands_at(w, here, part_bytes(grid_sot(data, i), Seq::empty(), eighth(data, i))),
    ensures
        part_spec(w, here, grid_tiles(data, i), count, Seq::empty(), i) == Ok::<
            (Seq<PartsView>, int),
            ErrorKind,
        >((grid_tiles(data, i + 1), here + grid_sot(data, i).psot)),
{
    lemma_eighth(data, i);
    lemma_grid_grown(data, i);
    lemma_bare_part(
        w,
        here,
        grid_tiles(data, i),
        count,
        i,
        grid_sot(data, i),
        eighth(data, i),
    );
}

/// The walk goes on behind a tile-part that a SOT follows, and ends behind one that
/// the EOC follows.
proof fn lemma_parts_step(
    w: Seq<u8>,
    at: int,
    tiles: Seq<PartsView>,
    count: int,
    k: int,
    next: Seq<PartsView>,
    end: int,
)
    requires
        part_spec(w, at, tiles, count, Seq::empty(), k) == Ok::<(Seq<PartsView>, int), ErrorKind>(
            (next, end),
        ),
        end + 2 <= w.len(),
    ensures
        be16(w, end) == marker::EOC ==> parts_from(w, at, tiles, count, Seq::empty(), k) == Ok::<
            Seq<PartsView>,
            ErrorKind,
        >(next),
        be16(w, end) == marker::SOT ==> parts_from(w, at, tiles, count, Seq::empty(), k)
            == parts_from(w, end, next, count, Seq::empty(), k + 1),
{
}

/// What stands behind a tile-part of the grid: the next one's SOT, or the EOC.
proof fn lemma_grid_next(w: Seq<u8>, at: int, data: Seq<u8>, i: int)
    requires
        0 <= i < 8,
        data.len() + 14 <= u32::MAX,
        stands_at(w, at, grid_parts(data, 8)),
        stands_at(w, at + grid_parts(data, 8).len(), word16(0xFFD9)),
    ensures
        at + grid_parts(data, (i + 1) as nat).len() + 2 <= w.len(),
        be16(w, at + grid_parts(data, (i + 1) as nat).len()) == (if i < 7 {
            marker::SOT
        } else {
            marker::EOC
        }),
{
    let end = at + grid_parts(data, (i + 1) as nat).len();
    if i < 7 {
        lemma_eighth(data, i + 1);
        lemma_grid_at(w, at, data, 8, i + 1);
        lemma_grid_head(w, end, grid_sot(data, i + 1), eighth(data, i + 1));
    } else {
        lemma_word16_at(w, end, 0xFFD9);
    }
}

/// The tile-parts of the grid from the `i`-th on are read.
#[verifier::rlimit(30)]
pub proof fn lemma_grid_read(w: Seq<u8>, at: int, count: int, data: Seq<u8>, i: int)
    requires
        0 <= i < 8,
        data.len() + 14 <= u32::MAX,
        stands_at(w, at, grid_parts(data, 8)),
        stands_at(w, at + grid_parts(data, 8).len(), word16(0xFFD9)),
    ensures
        parts_from(
            w,
            at + grid_parts(data, i as nat).len(),
            grid_tiles(data, i),
            count,
            Seq::empty(),
            i,
        ) == Ok::<Seq<PartsView>, ErrorKind>(grid_tiles(data, 8)),
    decreases 8 - i,
{
    lemma_grid_at(w, at, data, 8, i);
    lemma_grid_step(w, at + grid_parts(data, i as nat).len(), count, data, i);
    lemma_grid_next(w, at, data, i);
    lemma_parts_step(
        w,
        at + grid_parts(data, i as nat).len(),
        grid_tiles(data, i),
        count,
        i,
        grid_tiles(data, i + 1),
        at + grid_parts(data, (i + 1) as nat).len(),
    );
    if i < 7 {
        lemma_grid_read(w, at, count, data, i + 1);
    }
}

/// A tile-part opens with SOT.
proof fn lemma_grid_head(w: Seq<u8>, at: int, sot: Sot, data: Seq<u8>)
    requires
        sot.psot >= 12,
        stands_at(w, at, part_bytes(sot, Seq::empty(), data)),
    ensures
        be16(w, at) == marker::SOT,
        at + 2 <= w.len(),
{
    let head = sot_spec(
        sot.tile_index as int,
        sot.tile_part_index,
        sot.num_tile_parts,
        sot.psot - 12,
    );
    lemma_split(w, at, head, Seq::<u8>::empty() + word16(0xFF93) + data);
    lemma_sot_at(w, at, sot);
}

} // verus!
