//! A reserved marker carries no segment, and between two segments of the main header
//! it changes nothing but where the first tile-part starts.

use super::cursor::{be16, segment_body, segment_end, segment_fits};
use super::main_header::{
    main_spec, walk_from, walk_spec, GatheredView, SegmentView, MAX_MAIN_HEADER_SEGMENTS,
};
use super::markers::{marker, SizView};
use super::HeaderView;
use crate::error::ErrorKind;
use crate::math::max_int;
use vstd::prelude::*;

verus! {

/// Where the marker at `pos` ends, with its segment if it has one.
pub open spec fn marker_end(b: Seq<u8>, pos: int) -> int {
    if marker::has_segment(be16(b, pos) as u16) {
        segment_end(b, pos + 2)
    } else {
        pos + 2
    }
}

/// A marker of the main header stands at `pos`, and it is whole.
pub open spec fn marker_stands(b: Seq<u8>, pos: int) -> bool {
    let code = be16(b, pos) as u16;
    &&& 0 <= pos
    &&& pos + 2 <= b.len()
    &&& code != marker::SOT
    &&& marker::has_segment(code) ==> segment_fits(b, pos + 2)
}

/// `p` lies between two markers of the main header, of which the first stands at
/// `pos`, or before the SOT.
pub open spec fn boundary(b: Seq<u8>, pos: int, p: int) -> bool
    decreases max_int(0, b.len() - pos),
{
    p == pos || (marker_stands(b, pos) && boundary(b, marker_end(b, pos), p))
}

/// The bytes with a marker put in at `p`.
pub open spec fn with_marker(b: Seq<u8>, p: int, code: u16) -> Seq<u8> {
    b.take(p) + seq![(code / 256) as u8, (code % 256) as u8] + b.skip(p)
}

/// The record of a marker without a segment.
pub open spec fn bare(code: u16) -> SegmentView {
    SegmentView { code, body: Seq::empty() }
}

/// The record of the marker at `pos`.
pub open spec fn record(b: Seq<u8>, pos: int) -> SegmentView {
    let code = be16(b, pos) as u16;
    if marker::has_segment(code) {
        SegmentView { code, body: segment_body(b, pos + 2) }
    } else {
        bare(code)
    }
}

/// A boundary is not before where the walk stands.
proof fn lemma_boundary_ahead(b: Seq<u8>, pos: int, p: int)
    requires
        0 <= pos,
        boundary(b, pos, p),
    ensures
        pos <= p,
        p == pos || p >= marker_end(b, pos) >= pos + 2,
    decreases max_int(0, b.len() - pos),
{
    if p != pos {
        lemma_boundary_ahead(b, marker_end(b, pos), p);
    }
}

/// One step of the walk.
proof fn lemma_walk_step(b: Seq<u8>, pos: int, before: Seq<SegmentView>)
    requires
        marker_stands(b, pos),
        walk_from(b, pos, before) is Ok,
    ensures
        walk_from(b, pos, before) == walk_from(b, marker_end(b, pos), before.push(record(b, pos))),
        before.len() < MAX_MAIN_HEADER_SEGMENTS,
{
}

/// The walk up to a boundary, on bytes that are the same up to there.
proof fn lemma_walk_up_to(
    b: Seq<u8>,
    c: Seq<u8>,
    pos: int,
    p: int,
    before: Seq<SegmentView>,
) -> (mid: Seq<SegmentView>)
    requires
        0 <= pos,
        boundary(b, pos, p),
        p <= b.len(),
        p <= c.len(),
        c.take(p) == b.take(p),
        walk_from(b, pos, before) is Ok,
    ensures
        walk_from(b, pos, before) == walk_from(b, p, mid),
        walk_from(c, pos, before) == walk_from(c, p, mid),
        mid.len() >= before.len(),
        mid.take(before.len() as int) == before,
        p > pos ==> mid.len() > before.len() && mid[before.len() as int] == record(b, pos),
    decreases max_int(0, b.len() - pos),
{
    if p == pos {
        assert(before.take(before.len() as int) =~= before);
        before
    } else {
        lemma_boundary_ahead(b, pos, p);
        let end = marker_end(b, pos);
        let one = before.push(record(b, pos));
        assert(c.take(p)[pos] == b[pos] && c.take(p)[pos + 1] == b[pos + 1]);
        assert(be16(c, pos) == be16(b, pos));
        if marker::has_segment(be16(b, pos) as u16) {
            assert(c.take(p)[pos + 2] == b[pos + 2] && c.take(p)[pos + 3] == b[pos + 3]);
            assert(segment_body(b, pos + 2) =~= b.take(p).subrange(pos + 4, end));
            assert(segment_body(c, pos + 2) =~= c.take(p).subrange(pos + 4, end));
        }
        lemma_walk_step(b, pos, before);
        assert(walk_from(c, pos, before) == walk_from(c, end, one));
        let mid = lemma_walk_up_to(b, c, end, p, one);
        assert(mid.take(before.len() as int) =~= mid.take(one.len() as int).take(
            before.len() as int,
        ));
        assert(one.take(before.len() as int) =~= before);
        assert(mid.take(one.len() as int)[before.len() as int] == record(b, pos));
        mid
    }
}

/// The walk only adds records.
proof fn lemma_walk_adds(b: Seq<u8>, pos: int, before: Seq<SegmentView>)
    ensures
        walk_from(b, pos, before) matches Ok(v) ==> v.0.len() >= before.len(),
    decreases max_int(0, b.len() - pos),
{
    if walk_from(b, pos, before) is Ok && be16(b, pos) as u16 != marker::SOT {
        lemma_walk_step(b, pos, before);
        lemma_walk_adds(b, marker_end(b, pos), before.push(record(b, pos)));
    }
}

/// The walk on bytes that stand two further on, behind other records.
proof fn lemma_walk_shifted(
    b: Seq<u8>,
    c: Seq<u8>,
    pos: int,
    x: Seq<SegmentView>,
    y: Seq<SegmentView>,
) -> (s: Seq<SegmentView>)
    requires
        0 <= pos <= b.len(),
        c.len() == b.len() + 2,
        c.skip(pos + 2) == b.skip(pos),
        walk_from(b, pos, x) matches Ok(v) && v.0.len() < MAX_MAIN_HEADER_SEGMENTS,
        y.len() <= x.len() + 1,
    ensures
        walk_from(b, pos, x)->Ok_0.0 == x + s,
        walk_from(c, pos + 2, y) == Ok::<(Seq<SegmentView>, int), ErrorKind>(
            (y + s, walk_from(b, pos, x)->Ok_0.1 + 2),
        ),
    decreases max_int(0, b.len() - pos),
{
    let (bs, cs) = (b.skip(pos), c.skip(pos + 2));
    assert(bs[0] == b[pos] && bs[1] == b[pos + 1] && cs[0] == c[pos + 2] && cs[1] == c[pos + 3]);
    assert(be16(c, pos + 2) == be16(b, pos));
    if be16(b, pos) as u16 == marker::SOT {
        let none = Seq::<SegmentView>::empty();
        assert(x + none =~= x);
        assert(y + none =~= y);
        none
    } else {
        let end = marker_end(b, pos);
        let (x1, y1) = (x.push(record(b, pos)), y.push(record(b, pos)));
        lemma_walk_step(b, pos, x);
        lemma_walk_adds(b, end, x1);
        if marker::has_segment(be16(b, pos) as u16) {
            assert(bs[2] == b[pos + 2] && bs[3] == b[pos + 3] && cs[2] == c[pos + 4] && cs[3] == c[
            pos + 5]);
            assert(segment_body(b, pos + 2) =~= bs.subrange(4, end - pos));
            assert(segment_body(c, pos + 4) =~= cs.subrange(4, end - pos));
        }
        assert(c.skip(end + 2) =~= cs.skip(end - pos));
        assert(b.skip(end) =~= bs.skip(end - pos));
        assert(walk_from(c, pos + 2, y) == walk_from(c, end + 2, y1));
        let s = lemma_walk_shifted(b, c, end, x1, y1);
        let all = seq![record(b, pos)] + s;
        assert(x1 + s =~= x + all);
        assert(y1 + s =~= y + all);
        all
    }
}

/// What the segments behind a record that was put in give.
proof fn lemma_absorbed_behind(
    g: GatheredView,
    mid: Seq<SegmentView>,
    r: SegmentView,
    s: Seq<SegmentView>,
    j: int,
    siz: SizView,
)
    requires
        mid.len() <= j <= mid.len() + s.len(),
    ensures
        g.absorb_from(mid.push(r) + s, j + 1, siz) == g.absorb_from(mid + s, j, siz),
    decreases mid.len() + s.len() - j,
{
    let (one, two) = (mid + s, mid.push(r) + s);
    if j < one.len() {
        assert(two[j + 1] == one[j]);
        match g.absorb(one[j], siz) {
            Ok(next) => {
                lemma_absorbed_behind(next, mid, r, s, j + 1, siz);
            },
            Err(_) => {},
        }
    }
}

/// A reserved marker gives nothing.
proof fn lemma_reserved_absorbed(
    g: GatheredView,
    mid: Seq<SegmentView>,
    code: u16,
    s: Seq<SegmentView>,
    j: int,
    siz: SizView,
)
    requires
        marker::is_reserved(code),
        0 <= j <= mid.len(),
    ensures
        g.absorb_from(mid.push(bare(code)) + s, j, siz) == g.absorb_from(mid + s, j, siz),
    decreases mid.len() - j,
{
    let (one, two) = (mid + s, mid.push(bare(code)) + s);
    if j < mid.len() {
        assert(two[j] == one[j]);
        match g.absorb(one[j], siz) {
            Ok(next) => {
                lemma_reserved_absorbed(next, mid, code, s, j + 1, siz);
            },
            Err(_) => {},
        }
    } else {
        assert(two[j] == bare(code));
        assert(g.absorb(two[j], siz) == Ok::<GatheredView, ErrorKind>(g));
        lemma_absorbed_behind(g, mid, bare(code), s, j, siz);
    }
}

/// The bytes before and behind a marker that was put in.
proof fn lemma_put_in(b: Seq<u8>, p: int, code: u16)
    requires
        0 <= p <= b.len(),
    ensures
        with_marker(b, p, code).take(p) == b.take(p),
        with_marker(b, p, code).skip(p + 2) == b.skip(p),
        with_marker(b, p, code).len() == b.len() + 2,
        be16(with_marker(b, p, code), p) == code,
{
    let c = with_marker(b, p, code);
    assert(c.take(p) =~= b.take(p));
    assert(c.skip(p + 2) =~= b.skip(p));
}

/// The segments of a main header with a reserved marker put in.
proof fn lemma_walk_with_marker(b: Seq<u8>, p: int, code: u16) -> (r: (
    Seq<SegmentView>,
    Seq<SegmentView>,
))
    requires
        walk_spec(b) matches Ok(v) && v.0.len() < MAX_MAIN_HEADER_SEGMENTS,
        marker::is_reserved(code),
        2 < p <= b.len(),
        boundary(b, 2, p),
    ensures
        r.0.len() >= 1,
        walk_spec(b)->Ok_0.0 == r.0 + r.1,
        walk_spec(with_marker(b, p, code)) == Ok::<(Seq<SegmentView>, int), ErrorKind>(
            (r.0.push(bare(code)) + r.1, walk_spec(b)->Ok_0.1 + 2),
        ),
{
    let c = with_marker(b, p, code);
    lemma_put_in(b, p, code);
    lemma_boundary_ahead(b, 2, p);
    assert(c.take(p)[0] == b.take(p)[0] && c.take(p)[1] == b.take(p)[1]);
    assert(be16(c, 0) == be16(b, 0));
    let mid = lemma_walk_up_to(b, c, 2, p, Seq::empty());
    lemma_walk_adds(b, p, mid);
    assert(walk_from(c, p, mid) == walk_from(c, p + 2, mid.push(bare(code))));
    let s = lemma_walk_shifted(b, c, p, mid, mid.push(bare(code)));
    (mid, s)
}

/// A reserved marker that is put in between two segments of a main header, or before
/// its SOT, anywhere behind SIZ, changes nothing but where the first tile-part starts.
pub proof fn lemma_reserved_marker_is_skipped(b: Seq<u8>, p: int, code: u16)
    requires
        main_spec(b) is Ok,
        walk_spec(b)->Ok_0.0.len() < MAX_MAIN_HEADER_SEGMENTS,
        marker::is_reserved(code),
        2 < p <= b.len(),
        boundary(b, 2, p),
    ensures
        ({
            let (h, sot, chunks) = main_spec(b)->Ok_0;
            main_spec(with_marker(b, p, code)) == Ok::<
                (HeaderView, int, Seq<Seq<u8>>),
                ErrorKind,
            >((h, sot + 2, chunks))
        }),
{
    let (mid, s) = lemma_walk_with_marker(b, p, code);
    let (one, two) = (mid + s, mid.push(bare(code)) + s);
    assert(two[0] == one[0]);
    let siz = super::segments::siz_spec(one[0].body)->Ok_0;
    lemma_reserved_absorbed(
        GatheredView::empty(siz.components.len()),
        mid,
        code,
        s,
        1,
        siz,
    );
}

} // verus!
