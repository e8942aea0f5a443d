//! The values that flow between the stages: the coefficient pyramid that the
//! block coder produces, and one component's reconstructed samples.

use vstd::prelude::*;

verus! {

/// A row-major grid at an origin.
#[verifier::reject_recursive_types(T)]
pub struct GridView<T> {
    pub origin: (u32, u32),
    pub width: nat,
    pub height: nat,
    pub data: Seq<T>,
}

impl<T> GridView<T> {
    /// The grid has one entry per position.
    pub open spec fn wf(&self) -> bool {
        self.data.len() == self.width * self.height
    }

    /// The entry at `(x, y)`.
    pub open spec fn at(&self, x: int, y: int) -> T {
        self.data[y * self.width + x]
    }
}

/// One subband: a row-major coefficient grid at its tile-component origin. The
/// inverse transform reads the interleave parity off the origin.
#[derive(Debug, PartialEq)]
pub struct Band<T> {
    pub origin: (u32, u32),
    pub width: usize,
    pub height: usize,
    pub data: Vec<T>,
}

impl<T> View for Band<T> {
    type V = GridView<T>;

    open spec fn view(&self) -> GridView<T> {
        GridView {
            origin: self.origin,
            width: self.width as nat,
            height: self.height as nat,
            data: self.data@,
        }
    }
}

/// The three detail bands of one resolution.
#[verifier::reject_recursive_types(T)]
pub struct DetailView<T> {
    pub hl: GridView<T>,
    pub lh: GridView<T>,
    pub hh: GridView<T>,
}

/// The three detail subbands added at one resolution: `hl` is high-pass
/// horizontally, `lh` vertically, `hh` on both axes.
#[derive(Debug, PartialEq)]
pub struct DetailBands<T> {
    pub hl: Band<T>,
    pub lh: Band<T>,
    pub hh: Band<T>,
}

impl<T> View for DetailBands<T> {
    type V = DetailView<T>;

    open spec fn view(&self) -> DetailView<T> {
        DetailView { hl: self.hl@, lh: self.lh@, hh: self.hh@ }
    }
}

/// Every resolution's detail bands.
pub open spec fn detail_views<T>(s: Seq<DetailBands<T>>) -> Seq<DetailView<T>> {
    Seq::new(s.len(), |i: int| s[i]@)
}

/// All subbands of one tile-component.
#[verifier::reject_recursive_types(T)]
pub struct BandsView<T> {
    pub ll: GridView<T>,
    pub levels: Seq<DetailView<T>>,
}

/// All subbands of one tile-component: the coarsest `ll` and the detail bands of
/// each resolution, coarsest first.
#[derive(Debug, PartialEq)]
pub struct Bands<T> {
    pub ll: Band<T>,
    pub levels: Vec<DetailBands<T>>,
}

impl<T> View for Bands<T> {
    type V = BandsView<T>;

    open spec fn view(&self) -> BandsView<T> {
        BandsView { ll: self.ll@, levels: detail_views(self.levels@) }
    }
}

/// One component's coefficients, by the wavelet that they belong to.
pub enum CoeffsView {
    Reversible(BandsView<i32>),
    Irreversible(BandsView<i32>),
}

/// Quantized wavelet coefficients of one component.
#[derive(Debug, PartialEq)]
pub enum SubbandCoeffs {
    /// 5/3 reversible: exact coefficients.
    Reversible(Bands<i32>),
    /// 9/7 irreversible: quantization indices at twice their weight, at the
    /// mid-point of their interval.
    Irreversible(Bands<i32>),
}

impl View for SubbandCoeffs {
    type V = CoeffsView;

    open spec fn view(&self) -> CoeffsView {
        match self {
            SubbandCoeffs::Reversible(b) => CoeffsView::Reversible(b@),
            SubbandCoeffs::Irreversible(b) => CoeffsView::Irreversible(b@),
        }
    }
}

/// Every component's coefficients.
pub open spec fn coeffs_views(s: Seq<SubbandCoeffs>) -> Seq<CoeffsView> {
    Seq::new(s.len(), |i: int| s[i]@)
}

/// A subband's quantization step: `(1 + mantissa / 2048) * 2^exponent`.
#[derive(Debug, Clone, Copy, PartialEq, Eq, Structural)]
pub struct Step {
    pub exponent: i32,
    pub mantissa: u16,
}

/// One component's samples, or what they are yet to be synthesised from.
pub enum SamplesView {
    Reversible(Seq<i32>),
    Irreversible(BandsView<i32>, Seq<Step>),
}

/// One component of a tile past the reversible wavelet.
#[derive(Debug, PartialEq)]
pub enum Samples {
    /// 5/3 reversible: the reconstructed samples, exact integers.
    Reversible(Vec<i32>),
    /// 9/7 irreversible: the quantization indices and every subband's step, which a
    /// real-valued synthesis turns into samples. The steps are listed LL first, then
    /// HL, LH and HH per level, coarsest first.
    Irreversible(Bands<i32>, Vec<Step>),
}

impl View for Samples {
    type V = SamplesView;

    open spec fn view(&self) -> SamplesView {
        match self {
            Samples::Reversible(v) => SamplesView::Reversible(v@),
            Samples::Irreversible(b, steps) => SamplesView::Irreversible(b@, steps@),
        }
    }
}

/// Every component's samples.
pub open spec fn samples_views(s: Seq<Samples>) -> Seq<SamplesView> {
    Seq::new(s.len(), |i: int| s[i]@)
}

} // verus!
