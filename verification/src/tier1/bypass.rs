//! The coding passes that the bypass mode codes as raw bits: significance
//! propagation and magnitude refinement, without the arithmetic coder.

use super::block::{BlockState, BlockView, Orientation, CTX_ZC};
use super::passes::{
    fold_columns, fold_rows, lemma_awaken_fits, lemma_refine_fits, lemma_refined_block_fits,
    magnitudes_fit, pos, refining_fit, sample_fits, scanned, stripe_end, MAX_BIT_PLANES,
};
use super::raw::{RawDecoder, RawState};
use crate::math::lemma_index_bound;
use vstd::prelude::*;

verus! {

/// The raw bit reader and the block it decodes.
pub struct RawCoder {
    pub raw: RawState,
    pub block: BlockView,
}

impl RawCoder {
    /// The reader and the block are well formed.
    pub open spec fn wf(&self) -> bool {
        self.raw.wf() && self.block.wf()
    }

    /// Significance propagation at one sample: an insignificant sample with a
    /// significant neighbour reads one bit, and on a 1 its sign.
    pub open spec fn propagate(self, x: int, y: int, orient: Orientation, bpno: nat) -> RawCoder {
        if self.block.significant[self.block.at(x, y)] || self.block.zc(x, y, orient) == 0 {
            self
        } else {
            let (bit, raw) = self.raw.bit();
            if bit == 1 {
                let (sign, raw) = raw.bit();
                RawCoder {
                    raw,
                    block: self.block.awaken(x, y, bpno).signed(x, y, sign == 1).visit(x, y, true),
                }
            } else {
                RawCoder { raw, block: self.block.visit(x, y, true) }
            }
        }
    }

    /// Magnitude refinement at one sample.
    pub open spec fn refine(self, x: int, y: int, bpno: nat) -> RawCoder {
        let i = self.block.at(x, y);
        if !self.block.significant[i] || self.block.visited[i] {
            self
        } else {
            let (bit, raw) = self.raw.bit();
            RawCoder { raw, block: self.block.refine(x, y, bpno, bit) }
        }
    }

    /// The significance-propagation pass of plane `bpno`.
    pub open spec fn sig_prop_pass(self, orient: Orientation, bpno: nat) -> RawCoder {
        fold_columns(
            self,
            raw_propagate_column(self.block.height as int, orient, bpno),
            self.block.width as int,
            self.block.height as int,
            0,
            0,
        )
    }

    /// The magnitude-refinement pass of plane `bpno`.
    pub open spec fn mag_ref_pass(self, bpno: nat) -> RawCoder {
        fold_columns(
            self,
            raw_refine_column(self.block.height as int, bpno),
            self.block.width as int,
            self.block.height as int,
            0,
            0,
        )
    }
}

/// [`RawCoder::propagate`] as a step over samples.
pub open spec fn raw_propagate_step(orient: Orientation, bpno: nat) -> spec_fn(
    RawCoder,
    int,
    int,
) -> RawCoder {
    |c: RawCoder, x: int, y: int| c.propagate(x, y, orient, bpno)
}

/// Significance propagation down one stripe column of a block `h` rows high.
pub open spec fn raw_propagate_column(h: int, orient: Orientation, bpno: nat) -> spec_fn(
    RawCoder,
    int,
    int,
) -> RawCoder {
    |c: RawCoder, x: int, y0: int|
        fold_rows(c, raw_propagate_step(orient, bpno), x, y0, stripe_end(h, y0))
}

/// [`RawCoder::refine`] as a step over samples.
pub open spec fn raw_refine_step(bpno: nat) -> spec_fn(RawCoder, int, int) -> RawCoder {
    |c: RawCoder, x: int, y: int| c.refine(x, y, bpno)
}

/// Magnitude refinement down one stripe column of a block `h` rows high.
pub open spec fn raw_refine_column(h: int, bpno: nat) -> spec_fn(RawCoder, int, int) -> RawCoder {
    |c: RawCoder, x: int, y0: int| fold_rows(c, raw_refine_step(bpno), x, y0, stripe_end(h, y0))
}

/// The coder that two executable values stand for.
pub open spec fn raw_coder(raw: RawState, block: BlockView) -> RawCoder {
    RawCoder { raw, block }
}

/// Significance-propagation pass: visit each insignificant sample that has a
/// significant neighbour, zero code it, and on a 1 decode its sign.
pub(crate) fn raw_sig_prop_pass(
    raw: &mut RawDecoder<'_>,
    state: &mut BlockState,
    orient: Orientation,
    bpno: u32,
    Ghost(top): Ghost<nat>,
)
    requires
        raw_coder(old(raw)@, old(state)@).wf(),
        magnitudes_fit(old(state)@, bpno as nat, top),
        1 <= bpno < top <= MAX_BIT_PLANES,
    ensures
        raw_coder(final(raw)@, final(state)@) == raw_coder(old(raw)@, old(state)@).sig_prop_pass(orient, bpno as nat),
        raw_coder(final(raw)@, final(state)@).wf(),
        final(state)@.width == old(state)@.width,
        final(state)@.height == old(state)@.height,
        magnitudes_fit(final(state)@, bpno as nat, top),
{
    let w: u32 = state.width;
    let h: u32 = state.height;
    let ghost start = raw_coder(raw@, state@);
    let ghost g = raw_propagate_column(h as int, orient, bpno as nat);
    let ghost f = raw_propagate_step(orient, bpno as nat);
    let mut y0: u32 = 0;
    while y0 < h
        invariant
            raw_coder(raw@, state@).wf(),
            magnitudes_fit(state@, bpno as nat, top),
            1 <= bpno < top <= MAX_BIT_PLANES,
            state@.width == w,
            state@.height == h,
            g == raw_propagate_column(h as int, orient, bpno as nat),
            f == raw_propagate_step(orient, bpno as nat),
            fold_columns(raw_coder(raw@, state@), g, w as int, h as int, 0, y0 as int)
                == fold_columns(start, g, w as int, h as int, 0, 0),
        decreases h - y0,
    {
        let end: u32 = if h - y0 > 4 { y0 + 4 } else { h };
        let mut x: u32 = 0;
        while x < w
            invariant
                raw_coder(raw@, state@).wf(),
                magnitudes_fit(state@, bpno as nat, top),
                1 <= bpno < top <= MAX_BIT_PLANES,
                state@.width == w,
                state@.height == h,
                g == raw_propagate_column(h as int, orient, bpno as nat),
                f == raw_propagate_step(orient, bpno as nat),
                x <= w,
                y0 < h,
                end == stripe_end(h as int, y0 as int),
                fold_columns(raw_coder(raw@, state@), g, w as int, h as int, x as int, y0 as int)
                    == fold_columns(start, g, w as int, h as int, 0, 0),
            decreases w - x,
        {
            let ghost before = raw_coder(raw@, state@);
            let mut y: u32 = y0;
            while y < end
                invariant
                    raw_coder(raw@, state@).wf(),
                    magnitudes_fit(state@, bpno as nat, top),
                    1 <= bpno < top <= MAX_BIT_PLANES,
                    state@.width == w,
                    state@.height == h,
                    f == raw_propagate_step(orient, bpno as nat),
                    x < w,
                    y0 <= y <= end <= h,
                    fold_rows(raw_coder(raw@, state@), f, x as int, y as int, end as int)
                        == fold_rows(before, f, x as int, y0 as int, end as int),
                decreases end - y,
            {
                let ghost here = raw_coder(raw@, state@);
                if !state.is_significant(x, y) {
                    let label: u8 = state.zc_context(x, y, orient);
                    if label != CTX_ZC {
                        let bit: u8 = raw.decode();
                        if bit == 1 {
                            let sign: u8 = raw.decode();
                            proof {
                                lemma_awaken_fits(
                                    state@,
                                    x as int,
                                    y as int,
                                    bpno as nat,
                                    bpno as nat,
                                    top,
                                );
                            }
                            state.awaken(x, y, bpno);
                            state.set_negative(x, y, sign == 1);
                        }
                        state.set_visited(x, y, true);
                    }
                }
                assert(raw_coder(raw@, state@) == f(here, x as int, y as int));
                y = y + 1;
            }
            assert(raw_coder(raw@, state@) == g(before, x as int, y0 as int));
            x = x + 1;
        }
        if h - y0 > 4 {
            y0 = y0 + 4;
        } else {
            assert(fold_columns(raw_coder(raw@, state@), g, w as int, h as int, 0, y0 + 4)
                == raw_coder(raw@, state@));
            assert(fold_columns(raw_coder(raw@, state@), g, w as int, h as int, 0, h as int)
                == raw_coder(raw@, state@));
            y0 = h;
        }
    }
}

/// Magnitude-refinement pass: refine every sample that was significant before
/// this plane.
pub(crate) fn raw_mag_ref_pass(
    raw: &mut RawDecoder<'_>,
    state: &mut BlockState,
    bpno: u32,
    Ghost(top): Ghost<nat>,
)
    requires
        raw_coder(old(raw)@, old(state)@).wf(),
        magnitudes_fit(old(state)@, bpno as nat, top),
        1 <= bpno < top <= MAX_BIT_PLANES,
    ensures
        raw_coder(final(raw)@, final(state)@) == raw_coder(old(raw)@, old(state)@).mag_ref_pass(bpno as nat),
        raw_coder(final(raw)@, final(state)@).wf(),
        final(state)@.width == old(state)@.width,
        final(state)@.height == old(state)@.height,
        magnitudes_fit(final(state)@, (bpno - 1) as nat, top),
{
    let w: u32 = state.width;
    let h: u32 = state.height;
    let ghost start = raw_coder(raw@, state@);
    let ghost g = raw_refine_column(h as int, bpno as nat);
    let ghost f = raw_refine_step(bpno as nat);
    let ghost k = bpno as nat;
    proof {
        assert forall|px: int, py: int| state@.holds(px, py) implies sample_fits(
            state@.coeffs[#[trigger] pos(w as int, px, py)],
            state@.significant[pos(w as int, px, py)],
            k,
            top,
        ) by {
            lemma_index_bound(px, py, w as int, h as int);
        }
        assert(refining_fit(state@, k, top, 0, 0, 0));
    }
    let mut y0: u32 = 0;
    let ghost mut line: int = 0;
    while y0 < h
        invariant
            raw_coder(raw@, state@).wf(),
            k == bpno,
            1 <= bpno < top <= MAX_BIT_PLANES,
            state@.width == w,
            state@.height == h,
            g == raw_refine_column(h as int, bpno as nat),
            f == raw_refine_step(bpno as nat),
            y0 < h ==> line == y0,
            y0 >= h ==> line >= h,
            refining_fit(state@, k, top, 0, line, line),
            fold_columns(raw_coder(raw@, state@), g, w as int, h as int, 0, line) == fold_columns(
                start,
                g,
                w as int,
                h as int,
                0,
                0,
            ),
        decreases h - y0,
    {
        let end: u32 = if h - y0 > 4 { y0 + 4 } else { h };
        let mut x: u32 = 0;
        while x < w
            invariant
                raw_coder(raw@, state@).wf(),
                k == bpno,
                1 <= bpno < top <= MAX_BIT_PLANES,
                state@.width == w,
                state@.height == h,
                g == raw_refine_column(h as int, bpno as nat),
                f == raw_refine_step(bpno as nat),
                x <= w,
                y0 < h,
                end == stripe_end(h as int, y0 as int),
                refining_fit(state@, k, top, x as int, y0 as int, y0 as int),
                fold_columns(raw_coder(raw@, state@), g, w as int, h as int, x as int, y0 as int)
                    == fold_columns(start, g, w as int, h as int, 0, 0),
            decreases w - x,
        {
            let ghost before = raw_coder(raw@, state@);
            let mut y: u32 = y0;
            while y < end
                invariant
                    raw_coder(raw@, state@).wf(),
                    k == bpno,
                    1 <= bpno < top <= MAX_BIT_PLANES,
                    state@.width == w,
                    state@.height == h,
                    f == raw_refine_step(bpno as nat),
                    x < w,
                    y0 <= y <= end <= h,
                    end <= y0 + 4,
                    refining_fit(state@, k, top, x as int, y0 as int, y as int),
                    fold_rows(raw_coder(raw@, state@), f, x as int, y as int, end as int)
                        == fold_rows(before, f, x as int, y0 as int, end as int),
                decreases end - y,
            {
                let ghost here = raw_coder(raw@, state@);
                if state.is_significant(x, y) && !state.is_visited(x, y) {
                    let bit: u8 = raw.decode();
                    proof {
                        lemma_refine_fits(
                            state@,
                            state@.refine(x as int, y as int, k, bit),
                            k,
                            top,
                            x as int,
                            y0 as int,
                            y as int,
                            bit,
                        );
                    }
                    state.refine(x, y, bpno, bit);
                } else {
                    proof {
                        lemma_refine_fits(
                            state@,
                            state@,
                            k,
                            top,
                            x as int,
                            y0 as int,
                            y as int,
                            0,
                        );
                    }
                }
                assert(raw_coder(raw@, state@) == f(here, x as int, y as int));
                y = y + 1;
            }
            assert(raw_coder(raw@, state@) == g(before, x as int, y0 as int));
            assert forall|px: int, py: int| state@.holds(px, py) implies scanned(
                x as int,
                y0 as int,
                end as int,
                px,
                py,
            ) == scanned(x + 1, y0 as int, y0 as int, px, py) by {}
            x = x + 1;
        }
        assert forall|px: int, py: int| state@.holds(px, py) implies scanned(
            w as int,
            y0 as int,
            y0 as int,
            px,
            py,
        ) == scanned(0, y0 + 4, y0 + 4, px, py) by {}
        proof {
            line = y0 + 4;
        }
        if h - y0 > 4 {
            y0 = y0 + 4;
        } else {
            y0 = h;
        }
    }
    proof {
        lemma_refined_block_fits(state@, k, top, line);
    }
}

} // verus!
