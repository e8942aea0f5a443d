//! One code-block's decode state and the contexts formed from it (ISO/IEC
//! 15444-1 Annex D).
//!
//! [`BlockView`] is the mathematical block: five planes of per-sample values and
//! the context tables as functions of them. [`BlockState`] is the executable
//! block, specified against it.

use crate::math::{lemma_index_bound, pow2_i32};
use vstd::arithmetic::power2::pow2;
use vstd::prelude::*;

verus! {

/// First of the nine zero-coding contexts.
pub const CTX_ZC: u8 = 0;

/// First of the five sign-coding contexts.
pub const CTX_SC: u8 = 9;

/// First of the three magnitude-refinement contexts.
pub const CTX_MR: u8 = 14;

/// The run-length context of the cleanup pass.
pub const CTX_RUN: u8 = 17;

/// The uniform context.
pub const CTX_UNI: u8 = 18;

/// Number of contexts that a code-block tracks.
pub const NUM_CONTEXTS: usize = 19;

/// Subband orientation, which selects the zero-coding table.
#[derive(Debug, Clone, Copy, PartialEq, Eq, Structural)]
pub enum Orientation {
    Ll,
    Lh,
    Hl,
    Hh,
}

/// A code-block: its size, whether contexts are vertically causal, and its five
/// row-major planes.
pub struct BlockView {
    pub width: nat,
    pub height: nat,
    /// The 3x3 neighbourhood of a sample never reaches into the next stripe.
    pub causal: bool,
    pub coeffs: Seq<i32>,
    /// A 1 bit has been coded for the sample.
    pub significant: Seq<bool>,
    /// The sample was coded in this plane's significance-propagation pass.
    pub visited: Seq<bool>,
    /// The sample's sign.
    pub negative: Seq<bool>,
    /// The sample has been refined at least once.
    pub refined: Seq<bool>,
}

/// 1 for a set flag.
pub open spec fn count(flag: bool) -> int {
    if flag {
        1
    } else {
        0
    }
}

/// A sum of two sign contributions, held to -1, 0 or 1.
pub open spec fn clamp_sign(v: int) -> int {
    if v < -1 {
        -1
    } else if v > 1 {
        1
    } else {
        v
    }
}

/// Zero-coding label of the LL and LH bands from the horizontal, vertical and
/// diagonal significance sums (ISO/IEC 15444-1 Table D-1).
pub open spec fn zc_label_lh_spec(h: int, v: int, d: int) -> u8 {
    if h >= 2 {
        8
    } else if h == 1 && v >= 1 {
        7
    } else if h == 1 && d >= 1 {
        6
    } else if h == 1 {
        5
    } else if v >= 2 {
        4
    } else if v == 1 {
        3
    } else if d >= 2 {
        2
    } else if d == 1 {
        1
    } else {
        0
    }
}

/// Zero-coding label of the HH band, keyed by the diagonal sum and the sum of the
/// other two (ISO/IEC 15444-1 Table D-1).
pub open spec fn zc_label_hh_spec(hv: int, d: int) -> u8 {
    if d >= 3 {
        8
    } else if d == 2 && hv >= 1 {
        7
    } else if d == 2 {
        6
    } else if d == 1 && hv >= 2 {
        5
    } else if d == 1 && hv == 1 {
        4
    } else if d == 1 {
        3
    } else if hv >= 2 {
        2
    } else if hv == 1 {
        1
    } else {
        0
    }
}

impl BlockView {
    /// Row-major index of `(x, y)`.
    pub open spec fn at(&self, x: int, y: int) -> int {
        y * self.width + x
    }

    /// `(x, y)` is a sample of the block.
    pub open spec fn holds(&self, x: int, y: int) -> bool {
        0 <= x < self.width && 0 <= y < self.height
    }

    /// Every plane has one entry per sample.
    pub open spec fn wf(&self) -> bool {
        let n = self.width * self.height;
        &&& n <= u32::MAX
        &&& self.width <= u32::MAX
        &&& self.height <= u32::MAX
        &&& self.coeffs.len() == n
        &&& self.significant.len() == n
        &&& self.visited.len() == n
        &&& self.negative.len() == n
        &&& self.refined.len() == n
    }

    /// A block nothing has been coded for yet.
    pub open spec fn blank(width: nat, height: nat) -> BlockView {
        let n = width * height;
        BlockView {
            width,
            height,
            causal: false,
            coeffs: Seq::new(n, |i: int| 0i32),
            significant: Seq::new(n, |i: int| false),
            visited: Seq::new(n, |i: int| false),
            negative: Seq::new(n, |i: int| false),
            refined: Seq::new(n, |i: int| false),
        }
    }

    /// Significance of the neighbour at `(x, y)` of a sample in row `row`.
    /// Positions outside the block are insignificant; so is, under vertically
    /// causal contexts, the row that starts the next stripe.
    pub open spec fn sees(&self, x: int, y: int, row: int) -> bool {
        &&& self.holds(x, y)
        &&& !(self.causal && row % 4 == 3 && y > row)
        &&& self.significant[self.at(x, y)]
    }

    /// Horizontal significance sum of `(x, y)`.
    pub open spec fn sum_h(&self, x: int, y: int) -> int {
        count(self.sees(x - 1, y, y)) + count(self.sees(x + 1, y, y))
    }

    /// Vertical significance sum of `(x, y)`.
    pub open spec fn sum_v(&self, x: int, y: int) -> int {
        count(self.sees(x, y - 1, y)) + count(self.sees(x, y + 1, y))
    }

    /// Diagonal significance sum of `(x, y)`.
    pub open spec fn sum_d(&self, x: int, y: int) -> int {
        count(self.sees(x - 1, y - 1, y)) + count(self.sees(x + 1, y - 1, y)) + count(
            self.sees(x - 1, y + 1, y),
        ) + count(self.sees(x + 1, y + 1, y))
    }

    /// A neighbour's contribution to the sign context: 0 if insignificant, else
    /// its sign.
    pub open spec fn contribution(&self, x: int, y: int, row: int) -> int {
        if !self.sees(x, y, row) {
            0
        } else if self.negative[self.at(x, y)] {
            -1
        } else {
            1
        }
    }

    /// Zero-coding context of `(x, y)`. The HL band trades the horizontal and
    /// vertical sums.
    pub open spec fn zc(&self, x: int, y: int, orient: Orientation) -> u8 {
        let (h, v, d) = (self.sum_h(x, y), self.sum_v(x, y), self.sum_d(x, y));
        match orient {
            Orientation::Ll | Orientation::Lh => zc_label_lh_spec(h, v, d),
            Orientation::Hl => zc_label_lh_spec(v, h, d),
            Orientation::Hh => zc_label_hh_spec(h + v, d),
        }
    }

    /// Sign-coding context of `(x, y)` and the bit its decision is XORed with
    /// (ISO/IEC 15444-1 Tables D-2 and D-3): opposite contributions share a
    /// context and predict opposite signs.
    pub open spec fn sc(&self, x: int, y: int) -> (u8, u8) {
        let h = clamp_sign(self.contribution(x - 1, y, y) + self.contribution(x + 1, y, y));
        let v = clamp_sign(self.contribution(x, y - 1, y) + self.contribution(x, y + 1, y));
        let flip = h < 0 || (h == 0 && v < 0);
        let (h, v) = if flip { (-h, -v) } else { (h, v) };
        let label: u8 = if h == 1 { (3 + v) as u8 } else { v as u8 };
        ((9 + label) as u8, if flip { 1 } else { 0 })
    }

    /// Magnitude-refinement context of `(x, y)`.
    pub open spec fn mr(&self, x: int, y: int) -> u8 {
        if self.refined[self.at(x, y)] {
            16
        } else if self.sum_h(x, y) + self.sum_v(x, y) + self.sum_d(x, y) > 0 {
            15
        } else {
            14
        }
    }

    /// `(x, y)` becomes significant at plane `bpno`, at twice the interval's
    /// mid-point: the bit's weight and half of it.
    pub open spec fn awaken(self, x: int, y: int, bpno: nat) -> BlockView {
        let one = pow2(bpno) as int;
        BlockView {
            coeffs: self.coeffs.update(self.at(x, y), (one + one / 2) as i32),
            significant: self.significant.update(self.at(x, y), true),
            ..self
        }
    }

    /// `(x, y)` takes one more magnitude bit at plane `bpno`: a 1 pushes it up by
    /// half the plane's weight, a 0 down.
    pub open spec fn refine(self, x: int, y: int, bpno: nat, bit: u8) -> BlockView {
        let half = pow2(bpno) as int / 2;
        let i = self.at(x, y);
        BlockView {
            coeffs: self.coeffs.update(
                i,
                (if bit == 1 { self.coeffs[i] + half } else { self.coeffs[i] - half }) as i32,
            ),
            refined: self.refined.update(i, true),
            ..self
        }
    }

    /// The sign of `(x, y)` is recorded.
    pub open spec fn signed(self, x: int, y: int, negative: bool) -> BlockView {
        BlockView { negative: self.negative.update(self.at(x, y), negative), ..self }
    }

    /// `(x, y)` is marked as coded in this plane's significance propagation.
    pub open spec fn visit(self, x: int, y: int, value: bool) -> BlockView {
        BlockView { visited: self.visited.update(self.at(x, y), value), ..self }
    }

    /// No sample is marked.
    pub open spec fn unvisited(self) -> BlockView {
        BlockView { visited: Seq::new(self.visited.len(), |i: int| false), ..self }
    }
}

/// Zero-coding contexts lie below the sign-coding ones, sign-coding contexts
/// below the refinement ones.
pub proof fn lemma_contexts_in_range(b: BlockView, x: int, y: int, orient: Orientation)
    ensures
        b.zc(x, y, orient) < CTX_SC,
        CTX_SC <= b.sc(x, y).0 < CTX_MR,
        b.sc(x, y).1 <= 1,
        CTX_MR <= b.mr(x, y) < CTX_RUN,
{
}

/// A code-block's decode state: the coefficient magnitudes and the per-sample
/// flag planes that the passes consult and update, all row-major.
#[derive(Debug)]
pub struct BlockState {
    pub width: u32,
    pub height: u32,
    pub coeffs: Vec<i32>,
    /// Contexts never reach into the next stripe.
    pub causal: bool,
    /// The sample has become significant.
    pub significant: Vec<bool>,
    /// The sample was coded in this plane's significance propagation.
    pub visited: Vec<bool>,
    /// The sample is negative. Meaningful once it is significant.
    pub negative: Vec<bool>,
    /// The sample has been refined at least once.
    pub refined: Vec<bool>,
}

impl View for BlockState {
    type V = BlockView;

    open spec fn view(&self) -> BlockView {
        BlockView {
            width: self.width as nat,
            height: self.height as nat,
            causal: self.causal,
            coeffs: self.coeffs@,
            significant: self.significant@,
            visited: self.visited@,
            negative: self.negative@,
            refined: self.refined@,
        }
    }
}

impl BlockState {
    /// A blank `width` by `height` block.
    pub fn new(width: u32, height: u32) -> (state: Self)
        requires
            width as int * height as int <= u32::MAX,
        ensures
            state@ == BlockView::blank(width as nat, height as nat),
            state@.wf(),
    {
        let n: usize = (width * height) as usize;
        let state = BlockState {
            width,
            height,
            coeffs: vec![0i32; n],
            causal: false,
            significant: vec![false; n],
            visited: vec![false; n],
            negative: vec![false; n],
            refined: vec![false; n],
        };
        assert(state@.coeffs =~= BlockView::blank(width as nat, height as nat).coeffs);
        assert(state@.significant =~= BlockView::blank(width as nat, height as nat).significant);
        assert(state@.visited =~= BlockView::blank(width as nat, height as nat).visited);
        assert(state@.negative =~= BlockView::blank(width as nat, height as nat).negative);
        assert(state@.refined =~= BlockView::blank(width as nat, height as nat).refined);
        state
    }

    /// Row-major index of a sample.
    fn idx(&self, x: u32, y: u32) -> (i: usize)
        requires
            self@.wf(),
            self@.holds(x as int, y as int),
        ensures
            i == self@.at(x as int, y as int),
            i < self.coeffs@.len(),
            i < self.significant@.len(),
            i < self.visited@.len(),
            i < self.negative@.len(),
            i < self.refined@.len(),
    {
        proof {
            lemma_index_bound(x as int, y as int, self.width as int, self.height as int);
        }
        (y * self.width + x) as usize
    }

    /// Whether `(x, y)` is significant.
    pub fn is_significant(&self, x: u32, y: u32) -> (r: bool)
        requires
            self@.wf(),
            self@.holds(x as int, y as int),
        ensures
            r == self@.significant[self@.at(x as int, y as int)],
    {
        self.significant[self.idx(x, y)]
    }

    /// Mark `(x, y)` significant.
    pub fn set_significant(&mut self, x: u32, y: u32)
        requires
            old(self)@.wf(),
            old(self)@.holds(x as int, y as int),
        ensures
            final(self)@ == (BlockView {
                significant: old(self)@.significant.update(
                    old(self)@.at(x as int, y as int),
                    true,
                ),
                ..old(self)@
            }),
            final(self)@.wf(),
    {
        let i: usize = self.idx(x, y);
        self.significant.set(i, true);
    }

    /// Whether `(x, y)` was coded in this plane's significance propagation.
    pub fn is_visited(&self, x: u32, y: u32) -> (r: bool)
        requires
            self@.wf(),
            self@.holds(x as int, y as int),
        ensures
            r == self@.visited[self@.at(x as int, y as int)],
    {
        self.visited[self.idx(x, y)]
    }

    /// Set or clear the mark of `(x, y)`.
    pub fn set_visited(&mut self, x: u32, y: u32, value: bool)
        requires
            old(self)@.wf(),
            old(self)@.holds(x as int, y as int),
        ensures
            final(self)@ == old(self)@.visit(x as int, y as int, value),
            final(self)@.wf(),
    {
        let i: usize = self.idx(x, y);
        self.visited.set(i, value);
    }

    /// Whether `(x, y)` is negative.
    pub fn is_negative(&self, x: u32, y: u32) -> (r: bool)
        requires
            self@.wf(),
            self@.holds(x as int, y as int),
        ensures
            r == self@.negative[self@.at(x as int, y as int)],
    {
        self.negative[self.idx(x, y)]
    }

    /// Record the sign of `(x, y)`.
    pub fn set_negative(&mut self, x: u32, y: u32, value: bool)
        requires
            old(self)@.wf(),
            old(self)@.holds(x as int, y as int),
        ensures
            final(self)@ == old(self)@.signed(x as int, y as int, value),
            final(self)@.wf(),
    {
        let i: usize = self.idx(x, y);
        self.negative.set(i, value);
    }

    /// Whether `(x, y)` has been refined.
    pub fn is_refined(&self, x: u32, y: u32) -> (r: bool)
        requires
            self@.wf(),
            self@.holds(x as int, y as int),
        ensures
            r == self@.refined[self@.at(x as int, y as int)],
    {
        self.refined[self.idx(x, y)]
    }

    /// Mark `(x, y)` refined.
    pub fn set_refined(&mut self, x: u32, y: u32)
        requires
            old(self)@.wf(),
            old(self)@.holds(x as int, y as int),
        ensures
            final(self)@ == (BlockView {
                refined: old(self)@.refined.update(old(self)@.at(x as int, y as int), true),
                ..old(self)@
            }),
            final(self)@.wf(),
    {
        let i: usize = self.idx(x, y);
        self.refined.set(i, true);
    }

    /// Choose whether contexts are vertically causal.
    pub fn set_causal(&mut self, value: bool)
        ensures
            final(self)@ == (BlockView { causal: value, ..old(self)@ }),
    {
        self.causal = value;
    }

    /// Significance of a neighbour, which may lie outside the block, of a sample
    /// in row `row`.
    fn sig_at(&self, x: i64, y: i64, row: u32) -> (r: bool)
        requires
            self@.wf(),
        ensures
            r == self@.sees(x as int, y as int, row as int),
    {
        if x < 0 || y < 0 || x >= self.width as i64 || y >= self.height as i64 {
            return false;
        }
        if self.causal && row % 4 == 3 && y > row as i64 {
            return false;
        }
        self.is_significant(x as u32, y as u32)
    }

    /// A neighbour's signed contribution to the sign context.
    fn contrib_at(&self, x: i64, y: i64, row: u32) -> (r: i32)
        requires
            self@.wf(),
        ensures
            r == self@.contribution(x as int, y as int, row as int),
            -1 <= r <= 1,
    {
        if !self.sig_at(x, y, row) {
            0
        } else if self.is_negative(x as u32, y as u32) {
            -1
        } else {
            1
        }
    }

    /// The significance sums of the two horizontal, two vertical and four
    /// diagonal neighbours of `(x, y)`.
    fn neighbour_sums(&self, x: u32, y: u32) -> (r: (u8, u8, u8))
        requires
            self@.wf(),
        ensures
            r.0 == self@.sum_h(x as int, y as int),
            r.1 == self@.sum_v(x as int, y as int),
            r.2 == self@.sum_d(x as int, y as int),
            r.0 <= 2,
            r.1 <= 2,
            r.2 <= 4,
    {
        let cx: i64 = x as i64;
        let cy: i64 = y as i64;
        let h: u8 = one_if(self.sig_at(cx - 1, cy, y)) + one_if(self.sig_at(cx + 1, cy, y));
        let v: u8 = one_if(self.sig_at(cx, cy - 1, y)) + one_if(self.sig_at(cx, cy + 1, y));
        let d: u8 = one_if(self.sig_at(cx - 1, cy - 1, y)) + one_if(
            self.sig_at(cx + 1, cy - 1, y),
        ) + one_if(self.sig_at(cx - 1, cy + 1, y)) + one_if(self.sig_at(cx + 1, cy + 1, y));
        (h, v, d)
    }

    /// Zero-coding context of `(x, y)` in a subband of the given orientation.
    pub fn zc_context(&self, x: u32, y: u32, orient: Orientation) -> (label: u8)
        requires
            self@.wf(),
        ensures
            label == self@.zc(x as int, y as int, orient),
            label < CTX_SC,
    {
        let (h, v, d): (u8, u8, u8) = self.neighbour_sums(x, y);
        match orient {
            Orientation::Ll | Orientation::Lh => zc_label_lh(h, v, d),
            Orientation::Hl => zc_label_lh(v, h, d),
            Orientation::Hh => zc_label_hh(h + v, d),
        }
    }

    /// Sign-coding context of `(x, y)`, and the bit its decision is XORed with to
    /// recover the sign.
    pub fn sc_context(&self, x: u32, y: u32) -> (r: (u8, u8))
        requires
            self@.wf(),
        ensures
            r == self@.sc(x as int, y as int),
            CTX_SC <= r.0 < CTX_MR,
            r.1 <= 1,
    {
        let cx: i64 = x as i64;
        let cy: i64 = y as i64;
        let h: i32 = self.contrib_at(cx - 1, cy, y) + self.contrib_at(cx + 1, cy, y);
        let v: i32 = self.contrib_at(cx, cy - 1, y) + self.contrib_at(cx, cy + 1, y);
        if h > 0 {
            if v > 0 {
                (CTX_SC + 4, 0)
            } else if v == 0 {
                (CTX_SC + 3, 0)
            } else {
                (CTX_SC + 2, 0)
            }
        } else if h == 0 {
            if v > 0 {
                (CTX_SC + 1, 0)
            } else if v == 0 {
                (CTX_SC, 0)
            } else {
                (CTX_SC + 1, 1)
            }
        } else {
            if v > 0 {
                (CTX_SC + 2, 1)
            } else if v == 0 {
                (CTX_SC + 3, 1)
            } else {
                (CTX_SC + 4, 1)
            }
        }
    }

    /// Magnitude-refinement context of `(x, y)`: 16 after the first refinement;
    /// on it, 15 if any neighbour is significant and 14 otherwise.
    pub fn mr_context(&self, x: u32, y: u32) -> (label: u8)
        requires
            self@.wf(),
            self@.holds(x as int, y as int),
        ensures
            label == self@.mr(x as int, y as int),
            CTX_MR <= label < CTX_RUN,
    {
        if self.is_refined(x, y) {
            CTX_MR + 2
        } else {
            let (h, v, d): (u8, u8, u8) = self.neighbour_sums(x, y);
            if h + v + d > 0 {
                CTX_MR + 1
            } else {
                CTX_MR
            }
        }
    }

    /// `(x, y)` becomes significant at plane `bpno`.
    pub fn awaken(&mut self, x: u32, y: u32, bpno: u32)
        requires
            old(self)@.wf(),
            old(self)@.holds(x as int, y as int),
            bpno <= 30,
        ensures
            final(self)@ == old(self)@.awaken(x as int, y as int, bpno as nat),
            final(self)@.wf(),
    {
        let i: usize = self.idx(x, y);
        let one: i32 = pow2_i32(bpno);
        proof {
            crate::math::lemma_pow2_31();
            if bpno < 30 {
                vstd::arithmetic::power2::lemma_pow2_strictly_increases(bpno as nat, 30);
            }
        }
        self.coeffs.set(i, one + (one as u32 / 2) as i32);
        self.significant.set(i, true);
    }

    /// Refine `(x, y)` at plane `bpno` with one more magnitude bit.
    pub fn refine(&mut self, x: u32, y: u32, bpno: u32, bit: u8)
        requires
            old(self)@.wf(),
            old(self)@.holds(x as int, y as int),
            bpno <= 30,
            old(self)@.coeffs[old(self)@.at(x as int, y as int)] + pow2(bpno as nat) / 2
                <= i32::MAX,
            old(self)@.coeffs[old(self)@.at(x as int, y as int)] - pow2(bpno as nat) / 2
                >= i32::MIN,
        ensures
            final(self)@ == old(self)@.refine(x as int, y as int, bpno as nat, bit),
            final(self)@.wf(),
    {
        let i: usize = self.idx(x, y);
        let half: i32 = (pow2_i32(bpno) as u32 / 2) as i32;
        let old_value: i32 = self.coeffs[i];
        if bit == 1 {
            self.coeffs.set(i, old_value + half);
        } else {
            self.coeffs.set(i, old_value - half);
        }
        self.refined.set(i, true);
    }

    /// Clear every mark before the next plane begins.
    pub fn clear_visited(&mut self)
        requires
            old(self)@.wf(),
        ensures
            final(self)@ == old(self)@.unvisited(),
            final(self)@.wf(),
    {
        let n: usize = self.visited.len();
        self.visited = vec![false; n];
        assert(self@.visited =~= old(self)@.unvisited().visited);
    }
}

/// 1 for a set flag.
fn one_if(flag: bool) -> (n: u8)
    ensures
        n == count(flag),
        n <= 1,
{
    if flag {
        1
    } else {
        0
    }
}

/// Zero-coding label of the LL and LH bands.
fn zc_label_lh(h: u8, v: u8, d: u8) -> (label: u8)
    ensures
        label == zc_label_lh_spec(h as int, v as int, d as int),
        label <= 8,
{
    if h >= 2 {
        8
    } else if h == 1 {
        if v >= 1 {
            7
        } else if d >= 1 {
            6
        } else {
            5
        }
    } else if v >= 2 {
        4
    } else if v == 1 {
        3
    } else if d >= 2 {
        2
    } else if d == 1 {
        1
    } else {
        0
    }
}

/// Zero-coding label of the HH band.
fn zc_label_hh(hv: u8, d: u8) -> (label: u8)
    ensures
        label == zc_label_hh_spec(hv as int, d as int),
        label <= 8,
{
    if d >= 3 {
        8
    } else if d == 2 {
        if hv >= 1 {
            7
        } else {
            6
        }
    } else if d == 1 {
        if hv >= 2 {
            5
        } else if hv == 1 {
            4
        } else {
            3
        }
    } else if hv >= 2 {
        2
    } else if hv == 1 {
        1
    } else {
        0
    }
}

} // verus!
