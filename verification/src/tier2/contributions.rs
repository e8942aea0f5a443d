//! How a code-block's coding passes are divided into codeword segments: by the
//! code-block style alone, however the layers divide them.

use super::packet::{
    contribution_spec, fill_segments, grow_lblock, open_segment, pass_count, EntryView, HeaderState,
    SegmentView,
};
use crate::codestream::markers::code_block_style::{LAZY, TERMALL};
use crate::math::min_int;
use vstd::prelude::*;

verus! {

/// How many passes segment `i` of a block holds when it is full. Every pass is a segment
/// where each terminates. The bypass mode codes the first ten passes as one; from there
/// on two raw passes and one arithmetic-coded pass take turns. Otherwise a segment holds
/// as many as a block can carry.
pub open spec fn capacity(style: u8, i: int) -> nat {
    if style & TERMALL != 0 {
        1
    } else if style & LAZY == 0 {
        109
    } else if i == 0 {
        10
    } else if i % 2 == 1 {
        2
    } else {
        1
    }
}

/// Segments that a style gives: each has passes, none has more than it holds, and all
/// but the last are full.
pub open spec fn in_style(style: u8, segments: Seq<SegmentView>) -> bool {
    &&& forall|i: int|
        0 <= i < segments.len() ==> {
            &&& (#[trigger] segments[i]).max_passes == capacity(style, i)
            &&& 1 <= segments[i].passes <= capacity(style, i)
        }
    &&& forall|i: int|
        0 <= i < segments.len() - 1 ==> (#[trigger] segments[i]).passes == capacity(style, i)
}

/// The passes of all segments.
pub open spec fn passes_in(segments: Seq<SegmentView>) -> nat
    decreases segments.len(),
{
    if segments.len() == 0 {
        0
    } else {
        passes_in(segments.drop_last()) + segments.last().passes
    }
}

/// The passes that the first `n` segments of a style hold.
pub open spec fn held_by(style: u8, n: nat) -> nat
    decreases n,
{
    if n == 0 {
        0
    } else {
        held_by(style, (n - 1) as nat) + capacity(style, n - 1)
    }
}

/// The passes of segments that a style gives: those of the full ones and of the last.
pub proof fn lemma_passes_in_style(style: u8, segments: Seq<SegmentView>)
    requires
        in_style(style, segments),
        segments.len() > 0,
    ensures
        passes_in(segments) == held_by(style, (segments.len() - 1) as nat)
            + segments.last().passes,
{
    lemma_full(style, segments, (segments.len() - 1) as nat);
    assert(segments.take(segments.len() - 1) =~= segments.drop_last());
}

/// The passes of full segments.
proof fn lemma_full(style: u8, segments: Seq<SegmentView>, n: nat)
    requires
        in_style(style, segments),
        n < segments.len(),
    ensures
        passes_in(segments.take(n as int)) == held_by(style, n),
    decreases n,
{
    let part = segments.take(n as int);
    if n > 0 {
        lemma_full(style, segments, (n - 1) as nat);
        assert(part.drop_last() =~= segments.take(n - 1));
        assert(part.last() == segments[n - 1]);
    }
}

/// More segments hold more passes.
proof fn lemma_held_grows(style: u8, n: nat, m: nat)
    requires
        n <= m,
    ensures
        held_by(style, n) <= held_by(style, m),
    decreases m,
{
    if n < m {
        lemma_held_grows(style, n, (m - 1) as nat);
    }
}

/// The style and the number of passes say it all: two divisions of as many passes have
/// as many segments, with as many passes each.
pub proof fn lemma_style_divides_the_passes(
    style: u8,
    a: Seq<SegmentView>,
    b: Seq<SegmentView>,
    i: int,
)
    requires
        in_style(style, a),
        in_style(style, b),
        passes_in(a) == passes_in(b),
        0 <= i < a.len(),
    ensures
        a.len() == b.len(),
        a[i].passes == b[i].passes,
{
    lemma_passes_in_style(style, a);
    let n = (a.len() - 1) as nat;
    if b.len() > 0 {
        lemma_passes_in_style(style, b);
        let m = (b.len() - 1) as nat;
        if n < m {
            lemma_held_grows(style, n + 1, m);
        } else if m < n {
            lemma_held_grows(style, m + 1, n);
        }
    }
}

/// One segment more, or one that is fuller.
proof fn lemma_passes_updated(segments: Seq<SegmentView>, s: SegmentView)
    requires
        segments.len() > 0,
    ensures
        passes_in(segments.update(segments.len() - 1, s)) + segments.last().passes == passes_in(
            segments,
        ) + s.passes,
{
    let next = segments.update(segments.len() - 1, s);
    assert(next.drop_last() =~= segments.drop_last());
}

/// Passes go to the open segment first and to new ones after it.
pub proof fn lemma_passes_fill_in_style(
    s: HeaderState,
    style: u8,
    band: int,
    block: int,
    left: nat,
)
    requires
        0 <= block < s.blocks.len(),
        in_style(style, s.blocks[block].segments),
    ensures
        ({
            let r = fill_segments(s, style, band, block, left);
            &&& r.blocks.len() == s.blocks.len()
            &&& in_style(style, r.blocks[block].segments)
            &&& passes_in(r.blocks[block].segments) == passes_in(s.blocks[block].segments) + left
            &&& r.blocks[block] == (EntryView {
                segments: r.blocks[block].segments,
                ..s.blocks[block]
            })
            &&& forall|k: int|
                0 <= k < s.blocks.len() && k != block ==> #[trigger] r.blocks[k] == s.blocks[k]
        }),
    decreases left,
{
    if left > 0 {
        let entry = s.blocks[block];
        let old_segments = entry.segments;
        let segments = open_segment(style, old_segments);
        let i = segments.len() - 1;
        let seg = segments[i];
        lemma_opened(style, old_segments);
        let taken = min_int(left as int, seg.max_passes - seg.passes) as nat;
        assert(taken > 0);
        let (len, bits) = s.bits.bits(entry.lblock + super::packet::floor_log2(taken));
        let fuller = SegmentView { passes: seg.passes + taken, ..seg };
        let next = segments.update(i, fuller);
        lemma_passes_updated(segments, fuller);
        assert forall|j: int| 0 <= j < next.len() implies {
            &&& (#[trigger] next[j]).max_passes == capacity(style, j)
            &&& 1 <= next[j].passes <= capacity(style, j)
        } by {
            if j < i {
                assert(segments[j] == old_segments[j]);
            }
        }
        assert forall|j: int| 0 <= j < next.len() - 1 implies (#[trigger] next[j]).passes
            == capacity(style, j) by {
            assert(segments[j] == old_segments[j]);
            if segments.len() > old_segments.len() && j == old_segments.len() - 1 {
                assert(old_segments.last().passes >= old_segments.last().max_passes);
            }
        }
        let t = HeaderState {
            blocks: s.blocks.update(block, EntryView { segments: next, ..entry }),
            bits,
            takes: if len > 0 {
                s.takes.push(super::packet::TakeView { band, block, segment: i, len })
            } else {
                s.takes
            },
            ..s
        };
        lemma_passes_fill_in_style(t, style, band, block, (left - taken) as nat);
    }
}

/// A segment that can take passes is the next one of its style.
proof fn lemma_opened(style: u8, segments: Seq<SegmentView>)
    requires
        in_style(style, segments),
    ensures
        ({
            let opened = open_segment(style, segments);
            &&& opened.len() > 0
            &&& segments.len() <= opened.len() <= segments.len() + 1
            &&& opened.last().max_passes == capacity(style, opened.len() - 1)
            &&& opened.last().passes < opened.last().max_passes
            &&& passes_in(opened) == passes_in(segments)
            &&& forall|j: int| 0 <= j < segments.len() ==> #[trigger] opened[j] == segments[j]
        }),
{
    let opened = open_segment(style, segments);
    if opened.len() > segments.len() {
        assert(opened.drop_last() =~= segments);
        if segments.len() > 0 {
            let last = segments.len() - 1;
            assert(segments[last].max_passes == capacity(style, last));
        }
    }
}

/// A contribution adds its passes to a block's, and they are divided as the style has
/// it: the segments after the contribution are those of the block's passes in all.
pub proof fn lemma_contribution_stays_in_style(
    s: HeaderState,
    style: u8,
    band: int,
    block: int,
)
    requires
        0 <= block < s.blocks.len(),
        in_style(style, s.blocks[block].segments),
    ensures
        contribution_spec(s, style, band, block) matches Ok(r) ==> {
            &&& in_style(style, r.blocks[block].segments)
            &&& passes_in(r.blocks[block].segments) == passes_in(s.blocks[block].segments)
                + pass_count(s.bits).0
        },
{
    let (passes, bits) = pass_count(s.bits);
    let entry = s.blocks[block];
    match grow_lblock(entry.lblock, bits) {
        Err(_) => {},
        Ok((lblock, bits)) => {
            let t = HeaderState {
                blocks: s.blocks.update(
                    block,
                    EntryView {
                        lblock,
                        num_passes: super::packet::add_passes(entry.num_passes, passes),
                        ..entry
                    },
                ),
                bits,
                ..s
            };
            lemma_passes_fill_in_style(t, style, band, block, passes);
        },
    }
}

} // verus!
