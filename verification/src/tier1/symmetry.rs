//! How the contexts follow a block's neighbourhoods.
//!
//! Zero-coding contexts are 0 where nothing around is significant, they grow with what
//! is, and exchanging rows and columns trades the HL table for the LL one. Sign contexts
//! weigh both neighbours of an axis alike: mirroring a block leaves them, exchanging
//! rows and columns exchanges the two axes, and inverting every sign inverts what they
//! predict. Vertically causal contexts are those of a block that ends with the stripe.

use super::block::{BlockView, Orientation};
use super::lemma_row_column;
use crate::math::lemma_index_bound;
use vstd::prelude::*;

verus! {

/// The neighbour of `(x, y)` by `dx` columns and `dy` rows is seen to be significant.
pub open spec fn neighbour(b: BlockView, x: int, y: int, dx: int, dy: int) -> bool {
    b.sees(x + dx, y + dy, y)
}

/// None of the eight neighbours of `(x, y)` is seen to be significant.
pub open spec fn quiet(b: BlockView, x: int, y: int) -> bool {
    forall|dx: int, dy: int|
        -1 <= dx <= 1 && -1 <= dy <= 1 && (dx != 0 || dy != 0) ==> !#[trigger] neighbour(
            b,
            x,
            y,
            dx,
            dy,
        )
}

/// A plane with rows and columns exchanged.
pub open spec fn transposed_plane<T>(s: Seq<T>, width: nat, height: nat) -> Seq<T> {
    Seq::new(
        height * width,
        |i: int| s[(i % (height as int)) * width + i / (height as int)],
    )
}

/// A block with rows and columns exchanged.
pub open spec fn transposed(b: BlockView) -> BlockView {
    BlockView {
        width: b.height,
        height: b.width,
        causal: b.causal,
        coeffs: transposed_plane(b.coeffs, b.width, b.height),
        significant: transposed_plane(b.significant, b.width, b.height),
        visited: transposed_plane(b.visited, b.width, b.height),
        negative: transposed_plane(b.negative, b.width, b.height),
        refined: transposed_plane(b.refined, b.width, b.height),
    }
}

/// Zero-coding contexts are the nine from 0 on, and 0 says that none of the eight
/// neighbours is significant. LL and LH share a table.
pub proof fn lemma_zero_context_is_quiet(b: BlockView, x: int, y: int, orient: Orientation)
    ensures
        b.zc(x, y, orient) <= 8,
        b.zc(x, y, orient) == 0 <==> quiet(b, x, y),
        b.zc(x, y, Orientation::Ll) == b.zc(x, y, Orientation::Lh),
{
    let all = b.sum_h(x, y) + b.sum_v(x, y) + b.sum_d(x, y);
    assert(b.zc(x, y, orient) == 0 <==> all == 0);
    if all == 0 {
        assert forall|dx: int, dy: int|
            -1 <= dx <= 1 && -1 <= dy <= 1 && (dx != 0 || dy != 0) implies !#[trigger] neighbour(
            b,
            x,
            y,
            dx,
            dy,
        ) by {
            assert(dx == -1 || dx == 0 || dx == 1);
            assert(dy == -1 || dy == 0 || dy == 1);
        }
    }
    if quiet(b, x, y) {
        assert(!neighbour(b, x, y, -1, 0) && !neighbour(b, x, y, 1, 0));
        assert(!neighbour(b, x, y, 0, -1) && !neighbour(b, x, y, 0, 1));
        assert(!neighbour(b, x, y, -1, -1) && !neighbour(b, x, y, 1, -1));
        assert(!neighbour(b, x, y, -1, 1) && !neighbour(b, x, y, 1, 1));
    }
}

/// Exchanging rows and columns exchanges a sample's coordinates.
proof fn lemma_transposed_sees(b: BlockView, x: int, y: int, row: int, column: int)
    requires
        b.wf(),
        !b.causal,
    ensures
        transposed(b).sees(y, x, column) == b.sees(x, y, row),
{
    let t = transposed(b);
    if b.holds(x, y) {
        let (w, h) = (b.width as int, b.height as int);
        lemma_index_bound(y, x, h, w);
        lemma_row_column(y, x, h);
        assert(t.significant[t.at(y, x)] == b.significant[b.at(x, y)]);
    }
}

/// Without vertically causal contexts, exchanging rows and columns trades the HL
/// contexts for the LL ones, and leaves the HH ones.
pub proof fn lemma_contexts_transpose(b: BlockView, x: int, y: int)
    requires
        b.wf(),
        !b.causal,
    ensures
        b.zc(x, y, Orientation::Hl) == transposed(b).zc(y, x, Orientation::Ll),
        b.zc(x, y, Orientation::Ll) == transposed(b).zc(y, x, Orientation::Hl),
        b.zc(x, y, Orientation::Hh) == transposed(b).zc(y, x, Orientation::Hh),
        transposed(b).wf(),
{
    lemma_transposed_sees(b, x - 1, y, y, x);
    lemma_transposed_sees(b, x + 1, y, y, x);
    lemma_transposed_sees(b, x, y - 1, y, x);
    lemma_transposed_sees(b, x, y + 1, y, x);
    lemma_transposed_sees(b, x - 1, y - 1, y, x);
    lemma_transposed_sees(b, x + 1, y - 1, y, x);
    lemma_transposed_sees(b, x - 1, y + 1, y, x);
    lemma_transposed_sees(b, x + 1, y + 1, y, x);
    assert(b.width * b.height == b.height * b.width) by (nonlinear_arith);
}

/// What the sample at `(x, y)` contributes to a neighbour's sign: nothing outside the
/// block or before it is significant, and its sign after.
pub open spec fn tone(b: BlockView, x: int, y: int) -> int {
    if !(0 <= x < b.width && 0 <= y < b.height) || !b.significant[y * b.width + x] {
        0
    } else if b.negative[y * b.width + x] {
        -1
    } else {
        1
    }
}

/// A plane turned upside down.
pub open spec fn flipped_plane<T>(s: Seq<T>, width: nat, height: nat) -> Seq<T> {
    Seq::new(
        width * height,
        |i: int| s[(height - 1 - i / (width as int)) * width + i % (width as int)],
    )
}

/// A plane with its columns in reverse order.
pub open spec fn mirrored_plane<T>(s: Seq<T>, width: nat, height: nat) -> Seq<T> {
    Seq::new(
        width * height,
        |i: int| s[(i / (width as int)) * width + (width - 1 - i % (width as int))],
    )
}

/// A block turned upside down.
pub open spec fn flipped(b: BlockView) -> BlockView {
    BlockView {
        coeffs: flipped_plane(b.coeffs, b.width, b.height),
        significant: flipped_plane(b.significant, b.width, b.height),
        visited: flipped_plane(b.visited, b.width, b.height),
        negative: flipped_plane(b.negative, b.width, b.height),
        refined: flipped_plane(b.refined, b.width, b.height),
        ..b
    }
}

/// A block with its columns in reverse order.
pub open spec fn mirrored(b: BlockView) -> BlockView {
    BlockView {
        coeffs: mirrored_plane(b.coeffs, b.width, b.height),
        significant: mirrored_plane(b.significant, b.width, b.height),
        visited: mirrored_plane(b.visited, b.width, b.height),
        negative: mirrored_plane(b.negative, b.width, b.height),
        refined: mirrored_plane(b.refined, b.width, b.height),
        ..b
    }
}

/// A block with every sign inverted.
pub open spec fn inverted(b: BlockView) -> BlockView {
    BlockView { negative: Seq::new(b.negative.len(), |i: int| !b.negative[i]), ..b }
}

/// A sample of the upside-down block, seen and signed.
proof fn lemma_flipped(b: BlockView, x: int, y: int, row: int, other: int)
    requires
        b.wf(),
        !b.causal,
    ensures
        flipped(b).sees(x, b.height - 1 - y, other) == b.sees(x, y, row),
        flipped(b).contribution(x, b.height - 1 - y, other) == b.contribution(x, y, row),
{
    if b.holds(x, y) {
        let (w, h) = (b.width as int, b.height as int);
        lemma_index_bound(x, h - 1 - y, w, h);
        lemma_row_column(x, h - 1 - y, w);
        let t = flipped(b);
        assert(t.significant[t.at(x, h - 1 - y)] == b.significant[b.at(x, y)]);
        assert(t.negative[t.at(x, h - 1 - y)] == b.negative[b.at(x, y)]);
    }
}

/// A sample of the mirrored block, seen and signed.
proof fn lemma_mirrored(b: BlockView, x: int, y: int, row: int)
    requires
        b.wf(),
    ensures
        mirrored(b).sees(b.width - 1 - x, y, row) == b.sees(x, y, row),
        mirrored(b).contribution(b.width - 1 - x, y, row) == b.contribution(x, y, row),
{
    if b.holds(x, y) {
        let (w, h) = (b.width as int, b.height as int);
        lemma_index_bound(w - 1 - x, y, w, h);
        lemma_row_column(w - 1 - x, y, w);
        let t = mirrored(b);
        assert(t.significant[t.at(w - 1 - x, y)] == b.significant[b.at(x, y)]);
        assert(t.negative[t.at(w - 1 - x, y)] == b.negative[b.at(x, y)]);
    }
}

/// Turning a block upside down leaves every context of the sample that a position
/// holds, unless contexts are vertically causal.
pub proof fn lemma_contexts_flip(b: BlockView, x: int, y: int, orient: Orientation)
    requires
        b.wf(),
        !b.causal,
    ensures
        flipped(b).wf(),
        flipped(b).sc(x, b.height - 1 - y) == b.sc(x, y),
        flipped(b).zc(x, b.height - 1 - y, orient) == b.zc(x, y, orient),
        b.holds(x, y) ==> flipped(b).mr(x, b.height - 1 - y) == b.mr(x, y),
{
    let other = b.height - 1 - y;
    lemma_flipped(b, x - 1, y, y, other);
    lemma_flipped(b, x + 1, y, y, other);
    lemma_flipped(b, x, y - 1, y, other);
    lemma_flipped(b, x, y + 1, y, other);
    lemma_flipped(b, x - 1, y - 1, y, other);
    lemma_flipped(b, x + 1, y - 1, y, other);
    lemma_flipped(b, x - 1, y + 1, y, other);
    lemma_flipped(b, x + 1, y + 1, y, other);
    if b.holds(x, y) {
        lemma_index_bound(x, other, b.width as int, b.height as int);
        lemma_row_column(x, other, b.width as int);
        assert(flipped(b).refined[flipped(b).at(x, other)] == b.refined[b.at(x, y)]);
    }
}

/// Reversing a block's columns leaves every context of the sample that a position
/// holds.
pub proof fn lemma_contexts_mirror(b: BlockView, x: int, y: int, orient: Orientation)
    requires
        b.wf(),
    ensures
        mirrored(b).wf(),
        mirrored(b).sc(b.width - 1 - x, y) == b.sc(x, y),
        mirrored(b).zc(b.width - 1 - x, y, orient) == b.zc(x, y, orient),
        b.holds(x, y) ==> mirrored(b).mr(b.width - 1 - x, y) == b.mr(x, y),
{
    lemma_mirrored(b, x - 1, y, y);
    lemma_mirrored(b, x + 1, y, y);
    lemma_mirrored(b, x, y - 1, y);
    lemma_mirrored(b, x, y + 1, y);
    lemma_mirrored(b, x - 1, y - 1, y);
    lemma_mirrored(b, x + 1, y - 1, y);
    lemma_mirrored(b, x - 1, y + 1, y);
    lemma_mirrored(b, x + 1, y + 1, y);
    if b.holds(x, y) {
        let at = b.width - 1 - x;
        lemma_index_bound(at, y, b.width as int, b.height as int);
        lemma_row_column(at, y, b.width as int);
        assert(mirrored(b).refined[mirrored(b).at(at, y)] == b.refined[b.at(x, y)]);
    }
}

/// Inverting every sign leaves every context. The predicted sign is inverted too,
/// except where the neighbours predict none.
pub proof fn lemma_inverted_signs(b: BlockView, x: int, y: int, orient: Orientation)
    requires
        b.wf(),
    ensures
        inverted(b).sc(x, y).0 == b.sc(x, y).0,
        b.sc(x, y).0 == 9 ==> b.sc(x, y).1 == 0 && inverted(b).sc(x, y).1 == 0,
        b.sc(x, y).0 != 9 ==> inverted(b).sc(x, y).1 + b.sc(x, y).1 == 1,
        inverted(b).zc(x, y, orient) == b.zc(x, y, orient),
        inverted(b).mr(x, y) == b.mr(x, y),
{
    lemma_inverted(b, x - 1, y, y);
    lemma_inverted(b, x + 1, y, y);
    lemma_inverted(b, x, y - 1, y);
    lemma_inverted(b, x, y + 1, y);
    lemma_inverted(b, x - 1, y - 1, y);
    lemma_inverted(b, x + 1, y - 1, y);
    lemma_inverted(b, x - 1, y + 1, y);
    lemma_inverted(b, x + 1, y + 1, y);
}

/// An inverted sample contributes the opposite.
proof fn lemma_inverted(b: BlockView, x: int, y: int, row: int)
    requires
        b.wf(),
    ensures
        inverted(b).sees(x, y, row) == b.sees(x, y, row),
        inverted(b).contribution(x, y, row) == -b.contribution(x, y, row),
{
    if b.holds(x, y) {
        lemma_index_bound(x, y, b.width as int, b.height as int);
    }
}

/// The sign context of the transposed sample: a neighbourhood that speaks along one
/// axis alone changes axes, and where the axes disagree the first one changes.
pub open spec fn exchanged(sign: (u8, u8)) -> (u8, u8) {
    if sign.0 == 10 {
        (12, sign.1)
    } else if sign.0 == 12 {
        (10, sign.1)
    } else if sign.0 == 11 {
        (11, (1 - sign.1) as u8)
    } else {
        sign
    }
}

/// Without vertically causal contexts, exchanging rows and columns exchanges what the
/// two axes say of a sign, and leaves the refinement context.
pub proof fn lemma_signs_transpose(b: BlockView, x: int, y: int)
    requires
        b.wf(),
        !b.causal,
    ensures
        transposed(b).sc(y, x) == exchanged(b.sc(x, y)),
        b.holds(x, y) ==> transposed(b).mr(y, x) == b.mr(x, y),
{
    lemma_transposed_tone(b, x - 1, y, y, x);
    lemma_transposed_tone(b, x + 1, y, y, x);
    lemma_transposed_tone(b, x, y - 1, y, x);
    lemma_transposed_tone(b, x, y + 1, y, x);
    lemma_transposed_sees(b, x - 1, y, y, x);
    lemma_transposed_sees(b, x + 1, y, y, x);
    lemma_transposed_sees(b, x, y - 1, y, x);
    lemma_transposed_sees(b, x, y + 1, y, x);
    lemma_transposed_sees(b, x - 1, y - 1, y, x);
    lemma_transposed_sees(b, x + 1, y - 1, y, x);
    lemma_transposed_sees(b, x - 1, y + 1, y, x);
    lemma_transposed_sees(b, x + 1, y + 1, y, x);
    if b.holds(x, y) {
        lemma_index_bound(y, x, b.height as int, b.width as int);
        lemma_row_column(y, x, b.height as int);
        assert(transposed(b).refined[transposed(b).at(y, x)] == b.refined[b.at(x, y)]);
    }
}

/// A transposed sample contributes what it did.
proof fn lemma_transposed_tone(b: BlockView, x: int, y: int, row: int, column: int)
    requires
        b.wf(),
        !b.causal,
    ensures
        transposed(b).contribution(y, x, column) == b.contribution(x, y, row),
{
    lemma_transposed_sees(b, x, y, row, column);
    if b.holds(x, y) {
        let t = transposed(b);
        lemma_index_bound(y, x, b.height as int, b.width as int);
        lemma_row_column(y, x, b.height as int);
        assert(t.negative[t.at(y, x)] == b.negative[b.at(x, y)]);
    }
}

/// A sign context follows from both neighbours of each axis, and from nothing else:
/// two neighbours that agree say no more than one, two that disagree say nothing. An
/// axis that speaks alone predicts its own sign, in a context of its own; where both
/// speak, the horizontal one predicts, in one context where the vertical one agrees and
/// in another where it does not.
pub proof fn lemma_sign_neighbours(b: BlockView, x: int, y: int)
    requires
        !b.causal,
    ensures
        ({
            let horizontal = tone(b, x - 1, y) + tone(b, x + 1, y);
            let vertical = tone(b, x, y - 1) + tone(b, x, y + 1);
            let (label, minus) = b.sc(x, y);
            &&& label == 9 <==> horizontal == 0 && vertical == 0
            &&& label == 10 <==> horizontal == 0 && vertical != 0
            &&& label == 12 <==> horizontal != 0 && vertical == 0
            &&& label == 13 <==> horizontal > 0 && vertical > 0 || horizontal < 0 && vertical < 0
            &&& label == 11 <==> horizontal > 0 && vertical < 0 || horizontal < 0 && vertical > 0
            &&& minus == 1 <==> horizontal < 0 || (horizontal == 0 && vertical < 0)
            &&& minus == 0 || minus == 1
        }),
{
}

/// A sample whose one significant neighbour across an edge is above or below it takes
/// that one's sign in context 10, and one whose neighbour is beside it in context 12.
pub proof fn lemma_lone_neighbour(b: BlockView, x: int, y: int, dx: int, dy: int)
    requires
        !b.causal,
        -1 <= dx <= 1,
        -1 <= dy <= 1,
        (dx == 0) != (dy == 0),
        tone(b, x + dx, y + dy) != 0,
        dx != -1 ==> tone(b, x - 1, y) == 0,
        dx != 1 ==> tone(b, x + 1, y) == 0,
        dy != -1 ==> tone(b, x, y - 1) == 0,
        dy != 1 ==> tone(b, x, y + 1) == 0,
    ensures
        b.sc(x, y).0 == if dx == 0 { 10u8 } else { 12u8 },
        b.sc(x, y).1 == if tone(b, x + dx, y + dy) < 0 { 1u8 } else { 0u8 },
{
    lemma_sign_neighbours(b, x, y);
}

/// A refinement context is the last of the three from the second refinement on. On the
/// first it says whether any of the eight neighbours is significant.
pub proof fn lemma_refinement_context(b: BlockView, x: int, y: int)
    ensures
        b.mr(x, y) == 16 <==> b.refined[y * b.width + x],
        b.mr(x, y) == 14 <==> !b.refined[y * b.width + x] && quiet(b, x, y),
        b.mr(x, y) == 15 <==> !b.refined[y * b.width + x] && !quiet(b, x, y),
{
    lemma_zero_context_is_quiet(b, x, y, Orientation::Ll);
}

/// The first `rows` rows of a plane, with nothing below them.
pub open spec fn cut_plane(s: Seq<bool>, width: nat, rows: int) -> Seq<bool> {
    Seq::new(s.len(), |i: int| i < rows * width && s[i])
}

/// A block in which nothing from row `rows` on has become significant, and whose
/// contexts are not causal.
pub open spec fn cut(b: BlockView, rows: int) -> BlockView {
    BlockView { causal: false, significant: cut_plane(b.significant, b.width, rows), ..b }
}

/// A sample is seen in the cut block where it lies above the cut.
proof fn lemma_cut_sees(b: BlockView, x: int, y: int, row: int)
    requires
        b.wf(),
        b.causal,
        y <= row + 1,
        0 <= row,
    ensures
        cut(b, row - row % 4 + 4).sees(x, y, row) == b.sees(x, y, row),
        cut(b, row - row % 4 + 4).contribution(x, y, row) == b.contribution(x, y, row),
{
    if b.holds(x, y) {
        let (w, h) = (b.width as int, b.height as int);
        lemma_index_bound(x, y, w, h);
        let rows = row - row % 4 + 4;
        assert((y < rows) == !(row % 4 == 3 && y > row));
        assert((y * w + x < rows * w) == (y < rows)) by (nonlinear_arith)
            requires
                0 <= x < w,
        ;
    }
}

/// Vertically causal contexts are those of the block without its later stripes: they
/// ask for nothing that follows the stripe.
pub proof fn lemma_causal_contexts(b: BlockView, x: int, y: int, orient: Orientation)
    requires
        b.wf(),
        b.causal,
        b.holds(x, y),
    ensures
        ({
            let stripe = cut(b, y - y % 4 + 4);
            &&& b.zc(x, y, orient) == stripe.zc(x, y, orient)
            &&& b.sc(x, y) == stripe.sc(x, y)
            &&& b.mr(x, y) == stripe.mr(x, y)
        }),
{
    lemma_cut_sees(b, x - 1, y, y);
    lemma_cut_sees(b, x + 1, y, y);
    lemma_cut_sees(b, x, y - 1, y);
    lemma_cut_sees(b, x, y + 1, y);
    lemma_cut_sees(b, x - 1, y - 1, y);
    lemma_cut_sees(b, x + 1, y - 1, y);
    lemma_cut_sees(b, x - 1, y + 1, y);
    lemma_cut_sees(b, x + 1, y + 1, y);
}

/// 1 for a significant sample.
pub open spec fn loud(b: BlockView, x: int, y: int) -> int {
    if tone(b, x, y) != 0 {
        1
    } else {
        0
    }
}

/// What lies around a sample: significant neighbours beside it, above and below it, and
/// across its corners.
pub open spec fn surroundings(b: BlockView, x: int, y: int) -> (int, int, int) {
    (
        loud(b, x - 1, y) + loud(b, x + 1, y),
        loud(b, x, y - 1) + loud(b, x, y + 1),
        loud(b, x - 1, y - 1) + loud(b, x + 1, y - 1) + loud(b, x - 1, y + 1) + loud(
            b,
            x + 1,
            y + 1,
        ),
    )
}

/// Of two samples of LL or LH blocks, the one with more significant neighbours beside
/// it has the greater zero-coding context; where none lies beside either, the one with
/// more above and below; where none lies there either, the one with more across its
/// corners, of which two count as many. Where one lies beside each, one above or below
/// outweighs the corners, and one corner none. Two beside it say it all.
pub proof fn lemma_zero_contexts_grow(a: BlockView, b: BlockView, x: int, y: int, u: int, v: int)
    requires
        !a.causal,
        !b.causal,
    ensures
        ({
            let (h, e, d) = surroundings(a, x, y);
            let (k, f, g) = surroundings(b, u, v);
            let (p, q) = (a.zc(x, y, Orientation::Ll), b.zc(u, v, Orientation::Ll));
            &&& h > k ==> p > q
            &&& h == k == 2 ==> p == q == 8
            &&& h == k == 0 && e > f ==> p > q
            &&& h == k == 0 && e == f > 0 ==> p == q
            &&& h == k == 0 && e == f == 0 && d > g && g < 2 ==> p > q
            &&& h == k == 0 && e == f == 0 && d >= 2 && g >= 2 ==> p == q
            &&& h == k == 1 && e > 0 && f > 0 ==> p == q
            &&& h == k == 1 && e > 0 && f == 0 ==> p > q
            &&& h == k == 1 && e == f == 0 && d > 0 && g > 0 ==> p == q
            &&& h == k == 1 && e == f == 0 && d > 0 && g == 0 ==> p > q
            &&& h == e == d == 0 ==> p == 0
        }),
{
}

/// Of two samples of HH blocks, the one with more significant neighbours across its
/// corners has the greater zero-coding context, three and four counting alike; where
/// these are as many, the one with more across its edges, of which two count as many,
/// and one as many where two corners are significant.
pub proof fn lemma_corner_contexts_grow(a: BlockView, b: BlockView, x: int, y: int, u: int, v: int)
    requires
        !a.causal,
        !b.causal,
    ensures
        ({
            let (h, e, d) = surroundings(a, x, y);
            let (k, f, g) = surroundings(b, u, v);
            let (p, q) = (a.zc(x, y, Orientation::Hh), b.zc(u, v, Orientation::Hh));
            &&& d > g && g < 3 ==> p > q
            &&& d >= 3 && g >= 3 ==> p == q == 8
            &&& d == g == 2 && h + e > 0 && k + f > 0 ==> p == q
            &&& d == g == 2 && h + e > 0 && k + f == 0 ==> p > q
            &&& d == g && d < 2 && h + e > k + f && k + f < 2 ==> p > q
            &&& d == g && d < 2 && h + e >= 2 && k + f >= 2 ==> p == q
            &&& h == e == d == 0 ==> p == 0
        }),
{
}

} // verus!
