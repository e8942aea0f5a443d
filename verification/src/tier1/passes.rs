//! The three coding passes over a code-block (ISO/IEC 15444-1 Annex D) and the
//! block decoder that runs them.
//!
//! A code-block is decoded bit-plane by bit-plane, most significant first. Each
//! plane runs significance propagation, magnitude refinement and cleanup in that
//! order; the first plane runs cleanup alone. Every pass scans stripes of four
//! rows, column by column. [`Coder`] models the arithmetic-coded passes,
//! [`RawCoder`] the ones that the bypass mode codes as raw bits.

use super::mq::{Context, MqDecoder, MqState};


use crate::math::{lemma_index_bound, lemma_index_injective, lemma_pow2_31, min_int};
use vstd::arithmetic::power2::{
    lemma_pow2_pos, lemma_pow2_strictly_increases, lemma_pow2_unfold, pow2,
};
use vstd::prelude::*;

pub use super::block::{
    BlockState, BlockView, Orientation, CTX_MR, CTX_RUN, CTX_SC, CTX_UNI, CTX_ZC, NUM_CONTEXTS,
};

verus! {

/// Largest coded bit-plane: magnitudes are carried at twice their weight, so the
/// top plane's interval must stay inside `i32`.
pub const MAX_BIT_PLANES: u32 = 30;

/// Apply `f` down the rows `[y, end)` of column `x`.
pub open spec fn fold_rows<S>(s: S, f: spec_fn(S, int, int) -> S, x: int, y: int, end: int) -> S
    decreases end - y,
{
    if y < end {
        fold_rows(f(s, x, y), f, x, y + 1, end)
    } else {
        s
    }
}

/// Apply `g` to the stripe columns from column `x` of the stripe at row `y0`
/// onward: stripes of four rows top to bottom, each scanned left to right.
pub open spec fn fold_columns<S>(
    s: S,
    g: spec_fn(S, int, int) -> S,
    w: int,
    h: int,
    x: int,
    y0: int,
) -> S
    decreases h - y0 + 4, w - x,
{
    if y0 >= h {
        s
    } else if x < w {
        fold_columns(g(s, x, y0), g, w, h, x + 1, y0)
    } else {
        fold_columns(s, g, w, h, 0, y0 + 4)
    }
}

/// The row after the last one of the stripe at `y0`.
pub open spec fn stripe_end(h: int, y0: int) -> int {
    min_int(y0 + 4, h)
}

/// The arithmetic decoder, its contexts and the block they decode.
pub struct Coder {
    pub mq: MqState,
    pub cx: Seq<Context>,
    pub block: BlockView,
}

/// Every context is one of the table's.
pub open spec fn contexts_wf(cx: Seq<Context>) -> bool {
    &&& cx.len() == NUM_CONTEXTS
    &&& forall|i: int| 0 <= i < cx.len() ==> (#[trigger] cx[i]).wf()
}

impl Coder {
    /// The registers, the contexts and the block are well formed.
    pub open spec fn wf(&self) -> bool {
        self.mq.wf() && contexts_wf(self.cx) && self.block.wf()
    }

    /// Decode one decision in context `label`.
    pub open spec fn ask(self, label: u8) -> (u8, Coder) {
        let (bit, mq, next) = self.mq.decide(self.cx[label as int]);
        (bit, Coder { mq, cx: self.cx.update(label as int, next), ..self })
    }

    /// `(x, y)` becomes significant at plane `bpno` and its sign is decoded.
    pub open spec fn awaken(self, x: int, y: int, bpno: nat) -> Coder {
        let block = self.block.awaken(x, y, bpno);
        let (label, flip) = block.sc(x, y);
        let (bit, c) = Coder { block, ..self }.ask(label);
        Coder { block: c.block.signed(x, y, bit != flip), ..c }
    }

    /// Zero coding of `(x, y)`: one decision, and on a 1 its sign.
    pub open spec fn zero_code(self, x: int, y: int, orient: Orientation, bpno: nat) -> Coder {
        let (bit, c) = self.ask(self.block.zc(x, y, orient));
        if bit == 1 {
            c.awaken(x, y, bpno)
        } else {
            c
        }
    }

    /// Significance propagation at one sample: an insignificant sample with a
    /// significant neighbour is zero coded.
    pub open spec fn propagate(self, x: int, y: int, orient: Orientation, bpno: nat) -> Coder {
        if self.block.significant[self.block.at(x, y)] || self.block.zc(x, y, orient) == 0 {
            self
        } else {
            let c = self.zero_code(x, y, orient, bpno);
            Coder { block: c.block.visit(x, y, true), ..c }
        }
    }

    /// Magnitude refinement at one sample: one that was significant before this
    /// plane takes one more bit.
    pub open spec fn refine(self, x: int, y: int, bpno: nat) -> Coder {
        let i = self.block.at(x, y);
        if !self.block.significant[i] || self.block.visited[i] {
            self
        } else {
            let (bit, c) = self.ask(self.block.mr(x, y));
            Coder { block: c.block.refine(x, y, bpno, bit), ..c }
        }
    }

    /// Cleanup at one sample: one that this plane has not handled is zero coded.
    pub open spec fn clean(self, x: int, y: int, orient: Orientation, bpno: nat) -> Coder {
        let i = self.block.at(x, y);
        if self.block.significant[i] || self.block.visited[i] {
            self
        } else {
            self.zero_code(x, y, orient, bpno)
        }
    }

    /// Whether the four samples below `(x, y0)` are coded as one run: none is
    /// handled yet and none has a significant neighbour.
    pub open spec fn runs(self, x: int, y0: int, orient: Orientation) -> bool {
        &&& y0 + 4 <= self.block.height
        &&& forall|y: int|
            y0 <= y < y0 + 4 ==> {
                let i = #[trigger] self.block.at(x, y);
                &&& !self.block.significant[i]
                &&& !self.block.visited[i]
                &&& self.block.zc(x, y, orient) == 0
            }
    }

    /// Cleanup of one stripe column. A run that stays insignificant costs one
    /// decision; otherwise two uniform decisions place its first significant
    /// sample, and the rest of the column is coded sample by sample.
    pub open spec fn clean_column(self, x: int, y0: int, orient: Orientation, bpno: nat) -> Coder {
        let end = stripe_end(self.block.height as int, y0);
        if self.runs(x, y0, orient) {
            let (run, c) = self.ask(CTX_RUN);
            if run == 0 {
                c
            } else {
                let (hi, c) = c.ask(CTX_UNI);
                let (lo, c) = c.ask(CTX_UNI);
                let y = y0 + 2 * hi + lo;
                fold_rows(c.awaken(x, y, bpno), clean_step(orient, bpno), x, y + 1, end)
            }
        } else {
            fold_rows(self, clean_step(orient, bpno), x, y0, end)
        }
    }

    /// The significance-propagation pass of plane `bpno`.
    pub open spec fn sig_prop_pass(self, orient: Orientation, bpno: nat) -> Coder {
        fold_columns(
            self,
            propagate_column(self.block.height as int, orient, bpno),
            self.block.width as int,
            self.block.height as int,
            0,
            0,
        )
    }

    /// The magnitude-refinement pass of plane `bpno`.
    pub open spec fn mag_ref_pass(self, bpno: nat) -> Coder {
        fold_columns(
            self,
            refine_column(self.block.height as int, bpno),
            self.block.width as int,
            self.block.height as int,
            0,
            0,
        )
    }

    /// The cleanup pass of plane `bpno`. With segmentation symbols, four uniform
    /// decisions close it. The marks of the plane are cleared.
    pub open spec fn cleanup_pass(self, orient: Orientation, bpno: nat, segsym: bool) -> Coder {
        let c = fold_columns(
            self,
            clean_columns(orient, bpno),
            self.block.width as int,
            self.block.height as int,
            0,
            0,
        );
        let c = if segsym {
            c.ask(CTX_UNI).1.ask(CTX_UNI).1.ask(CTX_UNI).1.ask(CTX_UNI).1
        } else {
            c
        };
        Coder { block: c.block.unvisited(), ..c }
    }
}

/// [`Coder::propagate`] as a step over samples.
pub open spec fn propagate_step(orient: Orientation, bpno: nat) -> spec_fn(Coder, int, int) -> Coder {
    |c: Coder, x: int, y: int| c.propagate(x, y, orient, bpno)
}

/// Significance propagation down one stripe column of a block `h` rows high.
pub open spec fn propagate_column(h: int, orient: Orientation, bpno: nat) -> spec_fn(
    Coder,
    int,
    int,
) -> Coder {
    |c: Coder, x: int, y0: int|
        fold_rows(c, propagate_step(orient, bpno), x, y0, stripe_end(h, y0))
}

/// [`Coder::refine`] as a step over samples.
pub open spec fn refine_step(bpno: nat) -> spec_fn(Coder, int, int) -> Coder {
    |c: Coder, x: int, y: int| c.refine(x, y, bpno)
}

/// Magnitude refinement down one stripe column of a block `h` rows high.
pub open spec fn refine_column(h: int, bpno: nat) -> spec_fn(Coder, int, int) -> Coder {
    |c: Coder, x: int, y0: int| fold_rows(c, refine_step(bpno), x, y0, stripe_end(h, y0))
}

/// [`Coder::clean`] as a step over samples.
pub open spec fn clean_step(orient: Orientation, bpno: nat) -> spec_fn(Coder, int, int) -> Coder {
    |c: Coder, x: int, y: int| c.clean(x, y, orient, bpno)
}

/// [`Coder::clean_column`] as a step over stripe columns.
pub open spec fn clean_columns(orient: Orientation, bpno: nat) -> spec_fn(Coder, int, int) -> Coder {
    |c: Coder, x: int, y0: int| c.clean_column(x, y0, orient, bpno)
}

/// Row-major position in a block `w` samples wide.
pub open spec fn pos(w: int, x: int, y: int) -> int {
    y * w + x
}

/// What a sample's coefficient can be: nothing while it is insignificant, and
/// then at least `2^k` and at least `2^k` short of twice the top plane's weight.
pub open spec fn sample_fits(coeff: i32, significant: bool, k: nat, top: nat) -> bool {
    if significant {
        pow2(k) <= coeff <= pow2(top + 1) - pow2(k)
    } else {
        coeff == 0
    }
}

/// [`sample_fits`] of every sample of the two planes.
pub open spec fn planes_fit(coeffs: Seq<i32>, significant: Seq<bool>, k: nat, top: nat) -> bool {
    &&& coeffs.len() == significant.len()
    &&& forall|i: int|
        0 <= i < coeffs.len() ==> sample_fits(#[trigger] coeffs[i], significant[i], k, top)
}

/// [`planes_fit`] of a block.
pub open spec fn magnitudes_fit(b: BlockView, k: nat, top: nat) -> bool {
    planes_fit(b.coeffs, b.significant, k, top)
}

/// A sample that becomes significant at plane `bpno` leaves room for the planes
/// below it.
pub proof fn lemma_awaken_fits(b: BlockView, x: int, y: int, bpno: nat, k: nat, top: nat)
    requires
        b.wf(),
        b.holds(x, y),
        magnitudes_fit(b, k, top),
        1 <= bpno <= top <= MAX_BIT_PLANES,
        k + 1 == bpno || (k == bpno && bpno < top),
    ensures
        magnitudes_fit(b.awaken(x, y, bpno), k, top),
{
    lemma_index_bound(x, y, b.width as int, b.height as int);
    lemma_pow2_31();
    lemma_pow2_unfold(bpno);
    lemma_pow2_unfold(top + 1);
    lemma_pow2_pos((bpno - 1) as nat);
    if bpno < top {
        lemma_pow2_strictly_increases(bpno, top);
        lemma_pow2_unfold(top);
        if bpno + 1 < top {
            lemma_pow2_strictly_increases(bpno + 1, top);
        }
        lemma_pow2_unfold(bpno + 1);
    }
    if top < 30 {
        lemma_pow2_strictly_increases(top, 30);
    }
    let n = b.awaken(x, y, bpno);
    assert forall|i: int| 0 <= i < n.coeffs.len() implies sample_fits(
        #[trigger] n.coeffs[i],
        n.significant[i],
        k,
        top,
    ) by {
        if i != b.at(x, y) {
            assert(n.coeffs[i] == b.coeffs[i]);
        }
    }
}

/// The coder that three executable values stand for.
pub open spec fn coder(mq: MqState, cx: Seq<Context>, block: BlockView) -> Coder {
    Coder { mq, cx, block }
}

/// Decode one decision in context `label`.
fn ask(mq: &mut MqDecoder<'_>, cx: &mut Vec<Context>, label: u8, Ghost(block): Ghost<BlockView>) -> (bit: u8)
    requires
        old(mq)@.wf(),
        contexts_wf(old(cx)@),
        label < NUM_CONTEXTS,
    ensures
        (bit, coder(final(mq)@, final(cx)@, block)) == coder(old(mq)@, old(cx)@, block).ask(label),
        final(mq)@.wf(),
        contexts_wf(final(cx)@),
        bit <= 1,
{
    let mut context: Context = cx[label as usize];
    let bit: u8 = mq.decode(&mut context);
    cx.set(label as usize, context);
    bit
}

/// `(x, y)` becomes significant at plane `bpno` and its sign is decoded.
fn awaken(
    mq: &mut MqDecoder<'_>,
    state: &mut BlockState,
    cx: &mut Vec<Context>,
    x: u32,
    y: u32,
    bpno: u32,
    Ghost(k): Ghost<nat>,
    Ghost(top): Ghost<nat>,
)
    requires
        coder(old(mq)@, old(cx)@, old(state)@).wf(),
        old(state)@.holds(x as int, y as int),
        magnitudes_fit(old(state)@, k, top),
        1 <= bpno <= top <= MAX_BIT_PLANES,
        k + 1 == bpno || (k == bpno && bpno < top),
    ensures
        coder(final(mq)@, final(cx)@, final(state)@) == coder(
            old(mq)@,
            old(cx)@,
            old(state)@,
        ).awaken(x as int, y as int, bpno as nat),
        coder(final(mq)@, final(cx)@, final(state)@).wf(),
        final(state)@.width == old(state)@.width,
        final(state)@.height == old(state)@.height,
        magnitudes_fit(final(state)@, k, top),
{
    proof {
        lemma_awaken_fits(state@, x as int, y as int, bpno as nat, k, top);
    }
    state.awaken(x, y, bpno);
    let (label, flip): (u8, u8) = state.sc_context(x, y);
    let bit: u8 = ask(mq, cx, label, Ghost(state@));
    state.set_negative(x, y, bit != flip);
}

/// Zero coding of one sample.
fn zero_code(
    mq: &mut MqDecoder<'_>,
    state: &mut BlockState,
    cx: &mut Vec<Context>,
    x: u32,
    y: u32,
    orient: Orientation,
    bpno: u32,
    Ghost(k): Ghost<nat>,
    Ghost(top): Ghost<nat>,
)
    requires
        coder(old(mq)@, old(cx)@, old(state)@).wf(),
        old(state)@.holds(x as int, y as int),
        magnitudes_fit(old(state)@, k, top),
        1 <= bpno <= top <= MAX_BIT_PLANES,
        k + 1 == bpno || (k == bpno && bpno < top),
    ensures
        coder(final(mq)@, final(cx)@, final(state)@) == coder(
            old(mq)@,
            old(cx)@,
            old(state)@,
        ).zero_code(x as int, y as int, orient, bpno as nat),
        coder(final(mq)@, final(cx)@, final(state)@).wf(),
        final(state)@.width == old(state)@.width,
        final(state)@.height == old(state)@.height,
        magnitudes_fit(final(state)@, k, top),
{
    let label: u8 = state.zc_context(x, y, orient);
    let bit: u8 = ask(mq, cx, label, Ghost(state@));
    if bit == 1 {
        awaken(mq, state, cx, x, y, bpno, Ghost(k), Ghost(top));
    }
}

/// Significance-propagation pass: visit each insignificant sample that has a
/// significant neighbour, zero code it, and on a 1 decode its sign.
pub(crate) fn sig_prop_pass(
    mq: &mut MqDecoder<'_>,
    state: &mut BlockState,
    cx: &mut Vec<Context>,
    orient: Orientation,
    bpno: u32,
    Ghost(top): Ghost<nat>,
)
    requires
        coder(old(mq)@, old(cx)@, old(state)@).wf(),
        magnitudes_fit(old(state)@, bpno as nat, top),
        1 <= bpno < top <= MAX_BIT_PLANES,
    ensures
        coder(final(mq)@, final(cx)@, final(state)@) == coder(
            old(mq)@,
            old(cx)@,
            old(state)@,
        ).sig_prop_pass(orient, bpno as nat),
        coder(final(mq)@, final(cx)@, final(state)@).wf(),
        final(state)@.width == old(state)@.width,
        final(state)@.height == old(state)@.height,
        magnitudes_fit(final(state)@, bpno as nat, top),
{
    let w: u32 = state.width;
    let h: u32 = state.height;
    let ghost start = coder(mq@, cx@, state@);
    let ghost g = propagate_column(h as int, orient, bpno as nat);
    let ghost f = propagate_step(orient, bpno as nat);
    let mut y0: u32 = 0;
    while y0 < h
        invariant
            coder(mq@, cx@, state@).wf(),
            magnitudes_fit(state@, bpno as nat, top),
            1 <= bpno < top <= MAX_BIT_PLANES,
            state@.width == w,
            state@.height == h,
            g == propagate_column(h as int, orient, bpno as nat),
            f == propagate_step(orient, bpno as nat),
            fold_columns(coder(mq@, cx@, state@), g, w as int, h as int, 0, y0 as int)
                == fold_columns(start, g, w as int, h as int, 0, 0),
        decreases h - y0,
    {
        let end: u32 = if h - y0 > 4 { y0 + 4 } else { h };
        let mut x: u32 = 0;
        while x < w
            invariant
                coder(mq@, cx@, state@).wf(),
                magnitudes_fit(state@, bpno as nat, top),
                1 <= bpno < top <= MAX_BIT_PLANES,
                state@.width == w,
                state@.height == h,
                g == propagate_column(h as int, orient, bpno as nat),
                f == propagate_step(orient, bpno as nat),
                x <= w,
                y0 < h,
                end == stripe_end(h as int, y0 as int),
                fold_columns(coder(mq@, cx@, state@), g, w as int, h as int, x as int, y0 as int)
                    == fold_columns(start, g, w as int, h as int, 0, 0),
            decreases w - x,
        {
            let ghost before = coder(mq@, cx@, state@);
            let mut y: u32 = y0;
            while y < end
                invariant
                    coder(mq@, cx@, state@).wf(),
                    magnitudes_fit(state@, bpno as nat, top),
                    1 <= bpno < top <= MAX_BIT_PLANES,
                    state@.width == w,
                    state@.height == h,
                    f == propagate_step(orient, bpno as nat),
                    x < w,
                    y0 <= y <= end <= h,
                    fold_rows(coder(mq@, cx@, state@), f, x as int, y as int, end as int)
                        == fold_rows(before, f, x as int, y0 as int, end as int),
                decreases end - y,
            {
                let ghost here = coder(mq@, cx@, state@);
                if !state.is_significant(x, y) {
                    let label: u8 = state.zc_context(x, y, orient);
                    if label != CTX_ZC {
                        zero_code(
                            mq,
                            state,
                            cx,
                            x,
                            y,
                            orient,
                            bpno,
                            Ghost(bpno as nat),
                            Ghost(top),
                        );
                        state.set_visited(x, y, true);
                    }
                }
                assert(coder(mq@, cx@, state@) == f(here, x as int, y as int));
                y = y + 1;
            }
            assert(coder(mq@, cx@, state@) == g(before, x as int, y0 as int));
            x = x + 1;
        }
        if h - y0 > 4 {
            y0 = y0 + 4;
        } else {
            assert(fold_columns(coder(mq@, cx@, state@), g, w as int, h as int, 0, y0 + 4)
                == coder(mq@, cx@, state@));
            assert(fold_columns(coder(mq@, cx@, state@), g, w as int, h as int, 0, h as int)
                == coder(mq@, cx@, state@));
            y0 = h;
        }
    }
}

/// A pass that scans stripe columns has been through `(px, py)` when it stands at
/// row `y` of column `x` of the stripe at `y0`.
pub open spec fn scanned(x: int, y0: int, y: int, px: int, py: int) -> bool {
    py < y0 || (py < y0 + 4 && (px < x || (px == x && py < y)))
}

/// During a refinement pass, the samples already scanned leave room for the
/// planes below this one, the others for this plane too.
pub open spec fn refining_fit(b: BlockView, bpno: nat, top: nat, x: int, y0: int, y: int) -> bool {
    forall|px: int, py: int|
        b.holds(px, py) ==> sample_fits(
            b.coeffs[#[trigger] pos(b.width as int, px, py)],
            b.significant[pos(b.width as int, px, py)],
            if scanned(x, y0, y, px, py) {
                (bpno - 1) as nat
            } else {
                bpno
            },
            top,
        )
}

/// Room for a plane is room for the plane below it.
pub proof fn lemma_fit_weakens(coeff: i32, significant: bool, bpno: nat, top: nat)
    requires
        sample_fits(coeff, significant, bpno, top),
        bpno >= 1,
    ensures
        sample_fits(coeff, significant, (bpno - 1) as nat, top),
{
    lemma_pow2_unfold(bpno);
}

/// Refining `(x, y)` moves the scan past it.
pub proof fn lemma_refine_fits(
    b: BlockView,
    n: BlockView,
    bpno: nat,
    top: nat,
    x: int,
    y0: int,
    y: int,
    bit: u8,
)
    requires
        b.wf(),
        b.holds(x, y),
        1 <= bpno < top <= MAX_BIT_PLANES,
        y0 <= y < y0 + 4,
        refining_fit(b, bpno, top, x, y0, y),
        (n == b) || (b.significant[b.at(x, y)] && n == b.refine(x, y, bpno, bit)),
    ensures
        refining_fit(n, bpno, top, x, y0, y + 1),
        b.significant[b.at(x, y)] ==> b.coeffs[b.at(x, y)] + pow2(bpno) / 2 <= i32::MAX
            && b.coeffs[b.at(x, y)] - pow2(bpno) / 2 >= 0,
{
    let w = b.width as int;
    lemma_index_bound(x, y, w, b.height as int);
    lemma_pow2_31();
    lemma_pow2_unfold(bpno);
    lemma_pow2_unfold(top + 1);
    if top < 30 {
        lemma_pow2_strictly_increases(top, 30);
    }
    assert(sample_fits(b.coeffs[pos(w, x, y)], b.significant[pos(w, x, y)], bpno, top));
    assert forall|px: int, py: int| n.holds(px, py) implies sample_fits(
        n.coeffs[#[trigger] pos(w, px, py)],
        n.significant[pos(w, px, py)],
        if scanned(x, y0, y + 1, px, py) {
            (bpno - 1) as nat
        } else {
            bpno
        },
        top,
    ) by {
        lemma_index_bound(px, py, w, b.height as int);
        if px == x && py == y {
            lemma_fit_weakens(b.coeffs[pos(w, x, y)], b.significant[pos(w, x, y)], bpno, top);
        } else {
            if pos(w, px, py) == pos(w, x, y) {
                lemma_index_injective(px, py, x, y, w);
            }
            assert(scanned(x, y0, y + 1, px, py) == scanned(x, y0, y, px, py));
        }
    }
}

/// At the end of the scan every sample leaves room for the plane below.
pub proof fn lemma_refined_block_fits(b: BlockView, bpno: nat, top: nat, y0: int)
    requires
        b.wf(),
        1 <= bpno,
        y0 >= b.height,
        refining_fit(b, bpno, top, 0, y0, y0),
    ensures
        magnitudes_fit(b, (bpno - 1) as nat, top),
{
    let w = b.width as int;
    let h = b.height as int;
    assert forall|i: int| 0 <= i < b.coeffs.len() implies sample_fits(
        #[trigger] b.coeffs[i],
        b.significant[i],
        (bpno - 1) as nat,
        top,
    ) by {
        assert(w > 0 && h > 0) by (nonlinear_arith)
            requires
                0 <= i < w * h,
                w >= 0,
                h >= 0,
        ;
        let px = i % w;
        let py = i / w;
        vstd::arithmetic::div_mod::lemma_fundamental_div_mod(i, w);
        vstd::arithmetic::div_mod::lemma_mod_bound(i, w);
        vstd::arithmetic::div_mod::lemma_div_pos_is_pos(i, w);
        assert(py < h) by (nonlinear_arith)
            requires
                i < w * h,
                i == w * py + px,
                px >= 0,
                w > 0,
        ;
        assert(pos(w, px, py) == i) by (nonlinear_arith)
            requires
                i == w * py + px,
                pos(w, px, py) == py * w + px,
        ;
        assert(b.holds(px, py));
        assert(scanned(0, y0, y0, px, py));
    }
}

/// Magnitude-refinement pass: refine every sample that was significant before
/// this plane.
pub(crate) fn mag_ref_pass(
    mq: &mut MqDecoder<'_>,
    state: &mut BlockState,
    cx: &mut Vec<Context>,
    bpno: u32,
    Ghost(top): Ghost<nat>,
)
    requires
        coder(old(mq)@, old(cx)@, old(state)@).wf(),
        magnitudes_fit(old(state)@, bpno as nat, top),
        1 <= bpno < top <= MAX_BIT_PLANES,
    ensures
        coder(final(mq)@, final(cx)@, final(state)@) == coder(
            old(mq)@,
            old(cx)@,
            old(state)@,
        ).mag_ref_pass(bpno as nat),
        coder(final(mq)@, final(cx)@, final(state)@).wf(),
        final(state)@.width == old(state)@.width,
        final(state)@.height == old(state)@.height,
        magnitudes_fit(final(state)@, (bpno - 1) as nat, top),
{
    let w: u32 = state.width;
    let h: u32 = state.height;
    let ghost start = coder(mq@, cx@, state@);
    let ghost g = refine_column(h as int, bpno as nat);
    let ghost f = refine_step(bpno as nat);
    let ghost k = bpno as nat;
    proof {
        assert forall|px: int, py: int| state@.holds(px, py) implies sample_fits(
            state@.coeffs[#[trigger] pos(w as int, px, py)],
            state@.significant[pos(w as int, px, py)],
            k,
            top,
        ) by {
            lemma_index_bound(px, py, w as int, h as int);
        }
        assert(refining_fit(state@, k, top, 0, 0, 0));
    }
    let mut y0: u32 = 0;
    let ghost mut line: int = 0;
    while y0 < h
        invariant
            coder(mq@, cx@, state@).wf(),
            k == bpno,
            1 <= bpno < top <= MAX_BIT_PLANES,
            state@.width == w,
            state@.height == h,
            g == refine_column(h as int, bpno as nat),
            f == refine_step(bpno as nat),
            y0 < h ==> line == y0,
            y0 >= h ==> line >= h,
            refining_fit(state@, k, top, 0, line, line),
            fold_columns(coder(mq@, cx@, state@), g, w as int, h as int, 0, line) == fold_columns(
                start,
                g,
                w as int,
                h as int,
                0,
                0,
            ),
        decreases h - y0,
    {
        let end: u32 = if h - y0 > 4 { y0 + 4 } else { h };
        let mut x: u32 = 0;
        while x < w
            invariant
                coder(mq@, cx@, state@).wf(),
                k == bpno,
                1 <= bpno < top <= MAX_BIT_PLANES,
                state@.width == w,
                state@.height == h,
                g == refine_column(h as int, bpno as nat),
                f == refine_step(bpno as nat),
                x <= w,
                y0 < h,
                end == stripe_end(h as int, y0 as int),
                refining_fit(state@, k, top, x as int, y0 as int, y0 as int),
                fold_columns(coder(mq@, cx@, state@), g, w as int, h as int, x as int, y0 as int)
                    == fold_columns(start, g, w as int, h as int, 0, 0),
            decreases w - x,
        {
            let ghost before = coder(mq@, cx@, state@);
            let mut y: u32 = y0;
            while y < end
                invariant
                    coder(mq@, cx@, state@).wf(),
                    k == bpno,
                    1 <= bpno < top <= MAX_BIT_PLANES,
                    state@.width == w,
                    state@.height == h,
                    f == refine_step(bpno as nat),
                    x < w,
                    y0 <= y <= end <= h,
                    end <= y0 + 4,
                    refining_fit(state@, k, top, x as int, y0 as int, y as int),
                    fold_rows(coder(mq@, cx@, state@), f, x as int, y as int, end as int)
                        == fold_rows(before, f, x as int, y0 as int, end as int),
                decreases end - y,
            {
                let ghost here = coder(mq@, cx@, state@);
                if state.is_significant(x, y) && !state.is_visited(x, y) {
                    let label: u8 = state.mr_context(x, y);
                    let bit: u8 = ask(mq, cx, label, Ghost(state@));
                    proof {
                        lemma_refine_fits(
                            state@,
                            state@.refine(x as int, y as int, k, bit),
                            k,
                            top,
                            x as int,
                            y0 as int,
                            y as int,
                            bit,
                        );
                    }
                    state.refine(x, y, bpno, bit);
                } else {
                    proof {
                        lemma_refine_fits(
                            state@,
                            state@,
                            k,
                            top,
                            x as int,
                            y0 as int,
                            y as int,
                            0,
                        );
                    }
                }
                assert(coder(mq@, cx@, state@) == f(here, x as int, y as int));
                y = y + 1;
            }
            assert(coder(mq@, cx@, state@) == g(before, x as int, y0 as int));
            assert forall|px: int, py: int| state@.holds(px, py) implies scanned(
                x as int,
                y0 as int,
                end as int,
                px,
                py,
            ) == scanned(x + 1, y0 as int, y0 as int, px, py) by {}
            x = x + 1;
        }
        assert forall|px: int, py: int| state@.holds(px, py) implies scanned(
            w as int,
            y0 as int,
            y0 as int,
            px,
            py,
        ) == scanned(0, y0 + 4, y0 + 4, px, py) by {}
        proof {
            line = y0 + 4;
        }
        if h - y0 > 4 {
            y0 = y0 + 4;
        } else {
            y0 = h;
        }
    }
    proof {
        lemma_refined_block_fits(state@, k, top, line);
    }
}

/// Cleanup of the rows `[from, end)` of column `x`, sample by sample.
fn clean_rows(
    mq: &mut MqDecoder<'_>,
    state: &mut BlockState,
    cx: &mut Vec<Context>,
    orient: Orientation,
    bpno: u32,
    x: u32,
    from: u32,
    end: u32,
    Ghost(top): Ghost<nat>,
)
    requires
        coder(old(mq)@, old(cx)@, old(state)@).wf(),
        magnitudes_fit(old(state)@, (bpno - 1) as nat, top),
        1 <= bpno <= top <= MAX_BIT_PLANES,
        x < old(state)@.width,
        from <= end <= old(state)@.height,
    ensures
        coder(final(mq)@, final(cx)@, final(state)@) == fold_rows(
            coder(old(mq)@, old(cx)@, old(state)@),
            clean_step(orient, bpno as nat),
            x as int,
            from as int,
            end as int,
        ),
        coder(final(mq)@, final(cx)@, final(state)@).wf(),
        final(state)@.width == old(state)@.width,
        final(state)@.height == old(state)@.height,
        magnitudes_fit(final(state)@, (bpno - 1) as nat, top),
{
    let ghost before = coder(mq@, cx@, state@);
    let ghost f = clean_step(orient, bpno as nat);
    let ghost w = state@.width;
    let ghost h = state@.height;
    let mut y: u32 = from;
    while y < end
        invariant
            coder(mq@, cx@, state@).wf(),
            magnitudes_fit(state@, (bpno - 1) as nat, top),
            1 <= bpno <= top <= MAX_BIT_PLANES,
            state@.width == w,
            state@.height == h,
            f == clean_step(orient, bpno as nat),
            x < w,
            from <= y <= end <= h,
            fold_rows(coder(mq@, cx@, state@), f, x as int, y as int, end as int) == fold_rows(
                before,
                f,
                x as int,
                from as int,
                end as int,
            ),
        decreases end - y,
    {
        let ghost here = coder(mq@, cx@, state@);
        if !state.is_significant(x, y) && !state.is_visited(x, y) {
            zero_code(mq, state, cx, x, y, orient, bpno, Ghost((bpno - 1) as nat), Ghost(top));
        }
        assert(coder(mq@, cx@, state@) == f(here, x as int, y as int));
        y = y + 1;
    }
}

/// Whether `(x, y)` keeps its column from being coded as a run.
fn blocks_run(state: &BlockState, x: u32, y: u32, orient: Orientation) -> (r: bool)
    requires
        state@.wf(),
        state@.holds(x as int, y as int),
    ensures
        r == !({
            let i = state@.at(x as int, y as int);
            &&& !state@.significant[i]
            &&& !state@.visited[i]
            &&& state@.zc(x as int, y as int, orient) == 0
        }),
{
    state.is_significant(x, y) || state.is_visited(x, y) || state.zc_context(x, y, orient)
        != CTX_ZC
}

/// Cleanup of the stripe column whose top sample is `(x, y0)`.
fn clean_column(
    mq: &mut MqDecoder<'_>,
    state: &mut BlockState,
    cx: &mut Vec<Context>,
    orient: Orientation,
    bpno: u32,
    x: u32,
    y0: u32,
    Ghost(top): Ghost<nat>,
)
    requires
        coder(old(mq)@, old(cx)@, old(state)@).wf(),
        magnitudes_fit(old(state)@, (bpno - 1) as nat, top),
        1 <= bpno <= top <= MAX_BIT_PLANES,
        old(state)@.holds(x as int, y0 as int),
    ensures
        coder(final(mq)@, final(cx)@, final(state)@) == coder(
            old(mq)@,
            old(cx)@,
            old(state)@,
        ).clean_column(x as int, y0 as int, orient, bpno as nat),
        coder(final(mq)@, final(cx)@, final(state)@).wf(),
        final(state)@.width == old(state)@.width,
        final(state)@.height == old(state)@.height,
        magnitudes_fit(final(state)@, (bpno - 1) as nat, top),
{
    let h: u32 = state.height;
    let ghost start = coder(mq@, cx@, state@);
    let end: u32 = if h - y0 > 4 { y0 + 4 } else { h };
    if h - y0 >= 4 {
        let broken: bool = blocks_run(state, x, y0, orient) || blocks_run(state, x, y0 + 1, orient)
            || blocks_run(state, x, y0 + 2, orient) || blocks_run(state, x, y0 + 3, orient);
        proof {
            if !broken {
                assert forall|y: int| y0 <= y < y0 + 4 implies {
                    let i = #[trigger] state@.at(x as int, y);
                    &&& !state@.significant[i]
                    &&& !state@.visited[i]
                    &&& state@.zc(x as int, y, orient) == 0
                } by {
                    assert(y == y0 || y == y0 + 1 || y == y0 + 2 || y == y0 + 3);
                }
                assert(start.runs(x as int, y0 as int, orient));
            } else {
                let t0 = state@.at(x as int, y0 as int);
                let t1 = state@.at(x as int, y0 + 1);
                let t2 = state@.at(x as int, y0 + 2);
                let t3 = state@.at(x as int, y0 + 3);
                assert(!start.runs(x as int, y0 as int, orient));
            }
        }
        if !broken {
            let run: u8 = ask(mq, cx, CTX_RUN, Ghost(state@));
            if run == 0 {
                return;
            }
            let hi: u8 = ask(mq, cx, CTX_UNI, Ghost(state@));
            let lo: u8 = ask(mq, cx, CTX_UNI, Ghost(state@));
            let y: u32 = y0 + 2 * hi as u32 + lo as u32;
            awaken(mq, state, cx, x, y, bpno, Ghost((bpno - 1) as nat), Ghost(top));
            clean_rows(mq, state, cx, orient, bpno, x, y + 1, end, Ghost(top));
            return;
        }
    }
    clean_rows(mq, state, cx, orient, bpno, x, y0, end, Ghost(top));
}

/// Cleanup pass: code every sample that this plane has not handled, then consume
/// the segmentation symbol if the style has one, and clear the plane's marks.
pub(crate) fn cleanup_pass(
    mq: &mut MqDecoder<'_>,
    state: &mut BlockState,
    cx: &mut Vec<Context>,
    orient: Orientation,
    bpno: u32,
    segsym: bool,
    Ghost(top): Ghost<nat>,
)
    requires
        coder(old(mq)@, old(cx)@, old(state)@).wf(),
        magnitudes_fit(old(state)@, (bpno - 1) as nat, top),
        1 <= bpno <= top <= MAX_BIT_PLANES,
    ensures
        coder(final(mq)@, final(cx)@, final(state)@) == coder(
            old(mq)@,
            old(cx)@,
            old(state)@,
        ).cleanup_pass(orient, bpno as nat, segsym),
        coder(final(mq)@, final(cx)@, final(state)@).wf(),
        final(state)@.width == old(state)@.width,
        final(state)@.height == old(state)@.height,
        magnitudes_fit(final(state)@, (bpno - 1) as nat, top),
{
    let w: u32 = state.width;
    let h: u32 = state.height;
    let ghost start = coder(mq@, cx@, state@);
    let ghost g = clean_columns(orient, bpno as nat);
    let mut y0: u32 = 0;
    let ghost mut line: int = 0;
    while y0 < h
        invariant
            coder(mq@, cx@, state@).wf(),
            magnitudes_fit(state@, (bpno - 1) as nat, top),
            1 <= bpno <= top <= MAX_BIT_PLANES,
            state@.width == w,
            state@.height == h,
            g == clean_columns(orient, bpno as nat),
            y0 < h ==> line == y0,
            y0 >= h ==> line >= h,
            fold_columns(coder(mq@, cx@, state@), g, w as int, h as int, 0, line) == fold_columns(
                start,
                g,
                w as int,
                h as int,
                0,
                0,
            ),
        decreases h - y0,
    {
        let mut x: u32 = 0;
        while x < w
            invariant
                coder(mq@, cx@, state@).wf(),
                magnitudes_fit(state@, (bpno - 1) as nat, top),
                1 <= bpno <= top <= MAX_BIT_PLANES,
                state@.width == w,
                state@.height == h,
                g == clean_columns(orient, bpno as nat),
                x <= w,
                y0 < h,
                fold_columns(coder(mq@, cx@, state@), g, w as int, h as int, x as int, y0 as int)
                    == fold_columns(start, g, w as int, h as int, 0, 0),
            decreases w - x,
        {
            let ghost before = coder(mq@, cx@, state@);
            clean_column(mq, state, cx, orient, bpno, x, y0, Ghost(top));
            assert(coder(mq@, cx@, state@) == g(before, x as int, y0 as int));
            x = x + 1;
        }
        proof {
            line = y0 + 4;
        }
        if h - y0 > 4 {
            y0 = y0 + 4;
        } else {
            y0 = h;
        }
    }
    if segsym {
        let _b3: u8 = ask(mq, cx, CTX_UNI, Ghost(state@));
        let _b2: u8 = ask(mq, cx, CTX_UNI, Ghost(state@));
        let _b1: u8 = ask(mq, cx, CTX_UNI, Ghost(state@));
        let _b0: u8 = ask(mq, cx, CTX_UNI, Ghost(state@));
    }
    state.clear_visited();
}

} // verus!
