//! Marker codes and the segment structures that the parser fills (ISO/IEC
//! 15444-1 Annex A), with the reference-grid geometry that follows from SIZ
//! (B.2 and B.3).

pub mod code_block_style;
pub mod marker;

use crate::math::{ceil_div, div_ceil_u64, lemma_ceil_div, max_int, min_int, pow2_u64};
use vstd::arithmetic::power2::pow2;
use vstd::prelude::*;
use vstd::slice::slice_to_vec;

verus! {

/// Wavelet transform.
#[derive(Debug, Clone, Copy, PartialEq, Eq, Structural)]
pub enum Transform {
    /// 9/7 irreversible, lossy.
    Irreversible97,
    /// 5/3 reversible, lossless.
    Reversible53,
}

impl Transform {
    /// The wavelet's name, for an error message.
    pub open spec fn name_spec(&self) -> &'static str {
        match self {
            Transform::Irreversible97 => "Irreversible97",
            Transform::Reversible53 => "Reversible53",
        }
    }

    /// The wavelet's name, for an error message.
    pub fn name(&self) -> (s: &'static str)
        ensures
            s@ == self.name_spec()@,
    {
        match self {
            Transform::Irreversible97 => "Irreversible97",
            Transform::Reversible53 => "Reversible53",
        }
    }
}

/// Progression order (ISO/IEC 15444-1 Table A-16).
#[derive(Debug, Clone, Copy, PartialEq, Eq, Structural)]
pub enum Progression {
    /// Layer, resolution, component, position.
    Lrcp,
    /// Resolution, layer, component, position.
    Rlcp,
    /// Resolution, position, component, layer.
    Rpcl,
    /// Position, component, resolution, layer.
    Pcrl,
    /// Component, position, resolution, layer.
    Cprl,
}

/// The progression order of a code, if it is not reserved.
pub open spec fn progression_of(code: u8) -> Option<Progression> {
    match code {
        0 => Some(Progression::Lrcp),
        1 => Some(Progression::Rlcp),
        2 => Some(Progression::Rpcl),
        3 => Some(Progression::Pcrl),
        4 => Some(Progression::Cprl),
        _ => None,
    }
}

impl Progression {
    /// The progression order for a `SGcod` or `Ppoc` code, or `None` for a
    /// reserved value.
    pub fn from_u8(code: u8) -> (p: Option<Progression>)
        ensures
            p == progression_of(code),
    {
        match code {
            0 => Some(Progression::Lrcp),
            1 => Some(Progression::Rlcp),
            2 => Some(Progression::Rpcl),
            3 => Some(Progression::Pcrl),
            4 => Some(Progression::Cprl),
            _ => None,
        }
    }
}

/// One progression volume of a `POC` marker: a progression order over a sub-range
/// of the layer, resolution and component axes. The bounds are those of the
/// marker; the ends are clamped to the axes where they are used.
#[derive(Debug, Clone, Copy, PartialEq, Eq, Structural)]
pub struct PocVolume {
    /// First resolution (inclusive).
    pub res_start: u8,
    /// Last resolution (exclusive).
    pub res_end: u8,
    /// First component (inclusive).
    pub comp_start: u16,
    /// Last component (exclusive).
    pub comp_end: u16,
    /// Last layer (exclusive). The layer range always starts at 0.
    pub layer_end: u16,
    /// The progression order over this volume.
    pub progression: Progression,
}

/// Quantization style (ISO/IEC 15444-1 Table A-28).
#[derive(Debug, Clone, Copy, PartialEq, Eq, Structural)]
pub enum QuantStyle {
    /// No quantization, the reversible path.
    Unquantized,
    /// Scalar, one step from which every subband's is derived.
    ScalarDerived,
    /// Scalar, an explicit step per subband.
    ScalarExpounded,
}

/// One component's geometry.
#[derive(Debug, Clone, Copy, PartialEq, Eq, Structural)]
pub struct SizComponent {
    pub bit_depth: u8,
    pub signed: bool,
    pub x_sampling: u8,
    pub y_sampling: u8,
}

/// The largest component count that the standard allows.
pub const MAX_COMPONENTS: u16 = 16384;

/// One TLM entry: the length in bytes of one tile-part and the tile it belongs
/// to. Informational; decoding does not use it.
#[derive(Debug, Clone, Copy, PartialEq, Eq, Structural)]
pub struct TlmEntry {
    pub tile_index: u32,
    pub length: u32,
}

/// A half-open rectangle `[x0, x1)` by `[y0, y1)` on some sample grid.
#[derive(Debug, Clone, Copy, PartialEq, Eq, Structural)]
pub struct Rect {
    pub x0: u32,
    pub y0: u32,
    pub x1: u32,
    pub y1: u32,
}

/// `v` on the grid `reduction` resolution levels coarser.
pub open spec fn reduce(v: int, reduction: nat) -> int {
    ceil_div(v, pow2(min_int(reduction as int, 32) as nat) as int)
}

impl Rect {
    /// Width, 0 when the rectangle is empty.
    pub open spec fn width_spec(&self) -> int {
        max_int(0, self.x1 - self.x0)
    }

    /// Height, 0 when the rectangle is empty.
    pub open spec fn height_spec(&self) -> int {
        max_int(0, self.y1 - self.y0)
    }

    /// The point lies in the rectangle.
    pub open spec fn contains(&self, x: int, y: int) -> bool {
        self.x0 <= x < self.x1 && self.y0 <= y < self.y1
    }

    /// The rectangle `reduction` resolution levels coarser.
    pub open spec fn reduced_spec(&self, reduction: nat) -> Rect {
        Rect {
            x0: reduce(self.x0 as int, reduction) as u32,
            y0: reduce(self.y0 as int, reduction) as u32,
            x1: reduce(self.x1 as int, reduction) as u32,
            y1: reduce(self.y1 as int, reduction) as u32,
        }
    }

    /// Width, or 0 when the rectangle is empty.
    pub fn width(&self) -> (w: u32)
        ensures
            w == self.width_spec(),
    {
        if self.x1 > self.x0 {
            self.x1 - self.x0
        } else {
            0
        }
    }

    /// Height, or 0 when the rectangle is empty.
    pub fn height(&self) -> (h: u32)
        ensures
            h == self.height_spec(),
    {
        if self.y1 > self.y0 {
            self.y1 - self.y0
        } else {
            0
        }
    }

    /// Sample count.
    pub fn area(&self) -> (a: u64)
        ensures
            a == self.width_spec() * self.height_spec(),
    {
        let w: u64 = self.width() as u64;
        let h: u64 = self.height() as u64;
        assert(w * h <= 0xFFFF_FFFF * 0xFFFF_FFFF) by (nonlinear_arith)
            requires
                w <= 0xFFFF_FFFF,
                h <= 0xFFFF_FFFF,
        ;
        w * h
    }

    /// True when the rectangle encloses no samples.
    pub fn is_empty(&self) -> (e: bool)
        ensures
            e == (self.x1 <= self.x0 || self.y1 <= self.y0),
            e == (forall|x: int, y: int| !#[trigger] self.contains(x, y)),
    {
        proof {
            if self.x1 > self.x0 && self.y1 > self.y0 {
                assert(self.contains(self.x0 as int, self.y0 as int));
            }
        }
        self.x1 <= self.x0 || self.y1 <= self.y0
    }

    /// The same rectangle on the grid `reduction` resolution levels coarser: each
    /// bound divided by `2^reduction`, rounding up.
    pub fn reduced(&self, reduction: u8) -> (r: Rect)
        ensures
            r == self.reduced_spec(reduction as nat),
            r.x0 == reduce(self.x0 as int, reduction as nat),
            r.y0 == reduce(self.y0 as int, reduction as nat),
            r.x1 == reduce(self.x1 as int, reduction as nat),
            r.y1 == reduce(self.y1 as int, reduction as nat),
    {
        Rect {
            x0: reduce_bound(self.x0, reduction),
            y0: reduce_bound(self.y0, reduction),
            x1: reduce_bound(self.x1, reduction),
            y1: reduce_bound(self.y1, reduction),
        }
    }
}

/// `v` on the grid `reduction` resolution levels coarser.
fn reduce_bound(v: u32, reduction: u8) -> (r: u32)
    ensures
        r == reduce(v as int, reduction as nat),
{
    let level: u32 = if reduction < 32 { reduction as u32 } else { 32 };
    div_ceil_u64(v as u64, pow2_u64(level)) as u32
}

/// `v` on the grid of a component sub-sampled by `sampling`.
fn sample_bound(v: u32, sampling: u8) -> (r: u32)
    requires
        sampling > 0,
    ensures
        r == ceil_div(v as int, sampling as int),
{
    div_ceil_u64(v as u64, sampling as u64) as u32
}

/// Image and tile size.
pub struct SizView {
    pub x_size: u32,
    pub y_size: u32,
    pub x_offset: u32,
    pub y_offset: u32,
    pub tile_width: u32,
    pub tile_height: u32,
    pub tile_x_offset: u32,
    pub tile_y_offset: u32,
    pub components: Seq<SizComponent>,
}

/// How many tiles of `tile` samples from `origin` reach `size`.
pub open spec fn tiles_across(size: int, origin: int, tile: int) -> int {
    ceil_div(max_int(0, size - origin), tile)
}

impl SizView {
    /// The tile grid: tiles across and down. No tiles if a tile has no extent.
    pub open spec fn tile_grid(&self) -> (int, int) {
        if self.tile_width == 0 || self.tile_height == 0 {
            (0, 0)
        } else {
            (
                tiles_across(
                    self.x_size as int,
                    self.tile_x_offset as int,
                    self.tile_width as int,
                ),
                tiles_across(
                    self.y_size as int,
                    self.tile_y_offset as int,
                    self.tile_height as int,
                ),
            )
        }
    }

    /// Total tile count, held to `u32`.
    pub open spec fn num_tiles(&self) -> int {
        min_int(self.tile_grid().0 * self.tile_grid().1, u32::MAX as int)
    }

    /// The area of tile `index` on the reference grid, clipped to the image area.
    /// Tiles are numbered row by row from the top left.
    pub open spec fn tile_rect(&self, index: int) -> Option<Rect> {
        let (across, down) = self.tile_grid();
        if across == 0 || index >= self.num_tiles() {
            None
        } else {
            let p = index % across;
            let q = index / across;
            Some(
                Rect {
                    x0: max_int(
                        self.tile_x_offset + p * self.tile_width,
                        self.x_offset as int,
                    ) as u32,
                    y0: max_int(
                        self.tile_y_offset + q * self.tile_height,
                        self.y_offset as int,
                    ) as u32,
                    x1: min_int(
                        self.tile_x_offset + (p + 1) * self.tile_width,
                        self.x_size as int,
                    ) as u32,
                    y1: min_int(
                        self.tile_y_offset + (q + 1) * self.tile_height,
                        self.y_size as int,
                    ) as u32,
                },
            )
        }
    }

    /// Component `comp` exists and its sub-sampling is not zero.
    pub open spec fn has_component(&self, comp: int) -> bool {
        &&& 0 <= comp < self.components.len()
        &&& self.components[comp].x_sampling > 0
        &&& self.components[comp].y_sampling > 0
    }

    /// A reference-grid rectangle on component `comp`'s grid: every bound divided
    /// by the sub-sampling, rounding up.
    pub open spec fn sampled(&self, rect: Rect, comp: int) -> Rect {
        let c = self.components[comp];
        Rect {
            x0: ceil_div(rect.x0 as int, c.x_sampling as int) as u32,
            y0: ceil_div(rect.y0 as int, c.y_sampling as int) as u32,
            x1: ceil_div(rect.x1 as int, c.x_sampling as int) as u32,
            y1: ceil_div(rect.y1 as int, c.y_sampling as int) as u32,
        }
    }

    /// The area of tile `index` on component `comp`'s sample grid.
    pub open spec fn tile_component_rect(&self, index: int, comp: int) -> Option<Rect> {
        match self.tile_rect(index) {
            Some(tile) if self.has_component(comp) => Some(self.sampled(tile, comp)),
            _ => None,
        }
    }

    /// The image area on the reference grid.
    pub open spec fn image_rect(&self) -> Rect {
        Rect { x0: self.x_offset, y0: self.y_offset, x1: self.x_size, y1: self.y_size }
    }

    /// The image area on component `comp`'s sample grid.
    pub open spec fn component_rect(&self, comp: int) -> Option<Rect> {
        if self.has_component(comp) {
            Some(self.sampled(self.image_rect(), comp))
        } else {
            None
        }
    }

    /// The image area's extent at a resolution reduction.
    pub open spec fn image_extent_at(&self, reduction: nat) -> (int, int) {
        let r = self.image_rect().reduced_spec(reduction);
        (r.width_spec(), r.height_spec())
    }

    /// Component `comp`'s extent at a resolution reduction.
    pub open spec fn component_extent_at(&self, comp: int, reduction: nat) -> Option<(int, int)> {
        match self.component_rect(comp) {
            Some(rect) => {
                let r = rect.reduced_spec(reduction);
                Some((r.width_spec(), r.height_spec()))
            },
            None => None,
        }
    }
}

/// Image and tile size, and every declared component.
#[derive(Debug, PartialEq, Eq)]
pub struct Siz {
    pub x_size: u32,
    pub y_size: u32,
    pub x_offset: u32,
    pub y_offset: u32,
    pub tile_width: u32,
    pub tile_height: u32,
    pub tile_x_offset: u32,
    pub tile_y_offset: u32,
    pub components: Vec<SizComponent>,
}

impl View for Siz {
    type V = SizView;

    open spec fn view(&self) -> SizView {
        SizView {
            x_size: self.x_size,
            y_size: self.y_size,
            x_offset: self.x_offset,
            y_offset: self.y_offset,
            tile_width: self.tile_width,
            tile_height: self.tile_height,
            tile_x_offset: self.tile_x_offset,
            tile_y_offset: self.tile_y_offset,
            components: self.components@,
        }
    }
}

impl Clone for Siz {
    fn clone(&self) -> (r: Self)
        ensures
            r@ == self@,
    {
        Siz {
            x_size: self.x_size,
            y_size: self.y_size,
            x_offset: self.x_offset,
            y_offset: self.y_offset,
            tile_width: self.tile_width,
            tile_height: self.tile_height,
            tile_x_offset: self.tile_x_offset,
            tile_y_offset: self.tile_y_offset,
            components: slice_to_vec(self.components.as_slice()),
        }
    }
}

/// Tiles along one axis.
fn axis_tiles(size: u32, origin: u32, tile: u32) -> (n: u32)
    requires
        tile > 0,
    ensures
        n == tiles_across(size as int, origin as int, tile as int),
        n <= size,
{
    let span: u64 = if size > origin { (size - origin) as u64 } else { 0 };
    div_ceil_u64(span, tile as u64) as u32
}

/// One axis of a tile's rectangle: tile `p` of a grid that starts at `origin`,
/// clipped to `[low, high)`.
fn tile_bounds(origin: u32, tile: u32, p: u32, low: u32, high: u32) -> (r: (u32, u32))
    requires
        tile > 0,
        p < tiles_across(high as int, origin as int, tile as int),
    ensures
        r.0 == max_int(origin + p * tile, low as int),
        r.1 == min_int(origin + (p + 1) * tile, high as int),
{
    proof {
        let n = tiles_across(high as int, origin as int, tile as int);
        lemma_ceil_div(max_int(0, high - origin), tile as int);
        assert(tile * (n - 1) < max_int(0, high - origin));
        assert(p * tile <= tile * (n - 1)) by (nonlinear_arith)
            requires
                p <= n - 1,
                tile > 0,
        ;
        assert((p + 1) * tile == p * tile + tile) by (nonlinear_arith);
        assert(0 <= p * tile) by (nonlinear_arith)
            requires
                p >= 0,
                tile > 0,
        ;
    }
    let start: u64 = origin as u64 + p as u64 * tile as u64;
    let end: u64 = start + tile as u64;
    let x0: u32 = if start >= low as u64 { start as u32 } else { low };
    let x1: u32 = if end <= high as u64 { end as u32 } else { high };
    (x0, x1)
}

impl Siz {
    /// The tile grid: how many tiles span the image horizontally and vertically.
    /// `(0, 0)` if a tile dimension is zero.
    pub fn tile_grid(&self) -> (r: (u32, u32))
        ensures
            (r.0 as int, r.1 as int) == self@.tile_grid(),
    {
        if self.tile_width == 0 || self.tile_height == 0 {
            return (0, 0);
        }
        (
            axis_tiles(self.x_size, self.tile_x_offset, self.tile_width),
            axis_tiles(self.y_size, self.tile_y_offset, self.tile_height),
        )
    }

    /// Total tile count.
    pub fn num_tiles(&self) -> (n: u32)
        ensures
            n == self@.num_tiles(),
    {
        let (across, down): (u32, u32) = self.tile_grid();
        assert(across * down <= 0xFFFF_FFFF * 0xFFFF_FFFF) by (nonlinear_arith)
            requires
                across <= 0xFFFF_FFFF,
                down <= 0xFFFF_FFFF,
        ;
        let n: u64 = across as u64 * down as u64;
        if n > u32::MAX as u64 {
            u32::MAX
        } else {
            n as u32
        }
    }

    /// The area of tile `index` on the reference grid, clipped to the image area.
    /// `None` if `index` is past the grid.
    pub fn tile_rect(&self, index: u32) -> (r: Option<Rect>)
        ensures
            r == self@.tile_rect(index as int),
    {
        let (across, down): (u32, u32) = self.tile_grid();
        if across == 0 || index >= self.num_tiles() {
            return None;
        }
        let p: u32 = index % across;
        let q: u32 = index / across;
        proof {
            vstd::arithmetic::div_mod::lemma_fundamental_div_mod(index as int, across as int);
            assert(q < down) by (nonlinear_arith)
                requires
                    index == across * q + p,
                    index < across * down,
                    p >= 0,
                    across > 0,
            ;
        }
        let (x0, x1): (u32, u32) = tile_bounds(
            self.tile_x_offset,
            self.tile_width,
            p,
            self.x_offset,
            self.x_size,
        );
        let (y0, y1): (u32, u32) = tile_bounds(
            self.tile_y_offset,
            self.tile_height,
            q,
            self.y_offset,
            self.y_size,
        );
        Some(Rect { x0, y0, x1, y1 })
    }

    /// A reference-grid rectangle on component `comp`'s grid.
    fn sampled(&self, rect: Rect, comp: usize) -> (r: Rect)
        requires
            self@.has_component(comp as int),
        ensures
            r == self@.sampled(rect, comp as int),
            r.x0 == ceil_div(rect.x0 as int, self@.components[comp as int].x_sampling as int),
            r.y0 == ceil_div(rect.y0 as int, self@.components[comp as int].y_sampling as int),
            r.x1 == ceil_div(rect.x1 as int, self@.components[comp as int].x_sampling as int),
            r.y1 == ceil_div(rect.y1 as int, self@.components[comp as int].y_sampling as int),
    {
        let c: SizComponent = self.components[comp];
        Rect {
            x0: sample_bound(rect.x0, c.x_sampling),
            y0: sample_bound(rect.y0, c.y_sampling),
            x1: sample_bound(rect.x1, c.x_sampling),
            y1: sample_bound(rect.y1, c.y_sampling),
        }
    }

    /// Whether component `comp` exists with non-zero sub-sampling.
    fn has_component(&self, comp: usize) -> (r: bool)
        ensures
            r == self@.has_component(comp as int),
    {
        comp < self.components.len() && self.components[comp].x_sampling > 0
            && self.components[comp].y_sampling > 0
    }

    /// The area of tile `index` on component `comp`'s sample grid. `None` if
    /// `index` names no tile or `comp` no component.
    pub fn tile_component_rect(&self, index: u32, comp: usize) -> (r: Option<Rect>)
        ensures
            r == self@.tile_component_rect(index as int, comp as int),
    {
        match self.tile_rect(index) {
            Some(tile) => {
                if self.has_component(comp) {
                    Some(self.sampled(tile, comp))
                } else {
                    None
                }
            },
            None => None,
        }
    }

    /// The whole image area on component `comp`'s sample grid.
    pub fn component_rect(&self, comp: usize) -> (r: Option<Rect>)
        ensures
            r == self@.component_rect(comp as int),
    {
        if self.has_component(comp) {
            let image: Rect = Rect {
                x0: self.x_offset,
                y0: self.y_offset,
                x1: self.x_size,
                y1: self.y_size,
            };
            Some(self.sampled(image, comp))
        } else {
            None
        }
    }

    /// The extent of the image area on the reference grid at a resolution
    /// reduction.
    pub fn image_extent_at(&self, reduction: u8) -> (r: (u32, u32))
        ensures
            (r.0 as int, r.1 as int) == self@.image_extent_at(reduction as nat),
    {
        let image: Rect = Rect {
            x0: self.x_offset,
            y0: self.y_offset,
            x1: self.x_size,
            y1: self.y_size,
        };
        let rect: Rect = image.reduced(reduction);
        (rect.width(), rect.height())
    }

    /// Component `index`'s own sample-grid dimensions.
    pub fn component_extent(&self, index: usize) -> (r: Option<(u32, u32)>)
        ensures
            match r {
                Some(e) => self@.component_extent_at(index as int, 0) == Some(
                    (e.0 as int, e.1 as int),
                ),
                None => self@.component_extent_at(index as int, 0) is None,
            },
    {
        self.component_extent_at(index, 0)
    }

    /// Component `index`'s dimensions at a resolution reduction.
    pub fn component_extent_at(&self, index: usize, reduction: u8) -> (r: Option<(u32, u32)>)
        ensures
            match r {
                Some(e) => self@.component_extent_at(index as int, reduction as nat) == Some(
                    (e.0 as int, e.1 as int),
                ),
                None => self@.component_extent_at(index as int, reduction as nat) is None,
            },
    {
        match self.component_rect(index) {
            Some(rect) => {
                let reduced: Rect = rect.reduced(reduction);
                Some((reduced.width(), reduced.height()))
            },
            None => None,
        }
    }
}

/// The coding parameters that a component can override.
pub struct CodingView {
    pub decomposition_levels: u8,
    pub code_block_width: u8,
    pub code_block_height: u8,
    pub code_block_style: u8,
    pub transform: Transform,
    pub precinct_sizes: Seq<(u8, u8)>,
}

impl CodingView {
    /// The precinct exponents at resolution `r`, maximal where none are listed.
    pub open spec fn precinct(&self, r: int) -> (nat, nat) {
        if 0 <= r < self.precinct_sizes.len() {
            (self.precinct_sizes[r].0 as nat, self.precinct_sizes[r].1 as nat)
        } else {
            (15, 15)
        }
    }
}

/// The coding parameters that a component can override: the tail of `SPcod`,
/// which `SPcoc` repeats.
#[derive(Debug, PartialEq, Eq)]
pub struct Coding {
    pub decomposition_levels: u8,
    /// Exponent: the width is `2^(value + 2)`.
    pub code_block_width: u8,
    /// Exponent: the height is `2^(value + 2)`.
    pub code_block_height: u8,
    /// The [`code_block_style`] flags.
    pub code_block_style: u8,
    pub transform: Transform,
    /// `(PPx, PPy)` per resolution, coarsest first. Empty when the partition is
    /// maximal, which is `(15, 15)` everywhere.
    pub precinct_sizes: Vec<(u8, u8)>,
}

impl View for Coding {
    type V = CodingView;

    open spec fn view(&self) -> CodingView {
        CodingView {
            decomposition_levels: self.decomposition_levels,
            code_block_width: self.code_block_width,
            code_block_height: self.code_block_height,
            code_block_style: self.code_block_style,
            transform: self.transform,
            precinct_sizes: self.precinct_sizes@,
        }
    }
}

impl Clone for Coding {
    fn clone(&self) -> (r: Self)
        ensures
            r@ == self@,
    {
        Coding {
            decomposition_levels: self.decomposition_levels,
            code_block_width: self.code_block_width,
            code_block_height: self.code_block_height,
            code_block_style: self.code_block_style,
            transform: self.transform,
            precinct_sizes: slice_to_vec(self.precinct_sizes.as_slice()),
        }
    }
}

impl Coding {
    /// The precinct exponents `(PPx, PPy)` at resolution `r`, on that resolution's
    /// grid.
    pub fn precinct(&self, r: usize) -> (p: (u32, u32))
        ensures
            (p.0 as nat, p.1 as nat) == self@.precinct(r as int),
            p.0 <= 255,
            p.1 <= 255,
    {
        if r < self.precinct_sizes.len() {
            let (ppx, ppy): (u8, u8) = self.precinct_sizes[r];
            (ppx as u32, ppy as u32)
        } else {
            (15, 15)
        }
    }
}

/// A quantization default or override.
pub struct QcdView {
    pub style: QuantStyle,
    pub guard_bits: u8,
    pub steps: Seq<(u8, u16)>,
}

impl QcdView {
    /// The `(exponent, mantissa)` pair of subband `band`, counted from the LL band
    /// and then HL, LH, HH per resolution. The derived style lists the LL band's
    /// alone and drops the exponent by one per finer resolution.
    pub open spec fn subband_step(&self, band: int) -> Option<(u8, u16)> {
        match self.style {
            QuantStyle::ScalarDerived => if self.steps.len() > 0 {
                let drop = max_int(0, band - 1) / 3;
                Some((max_int(0, self.steps[0].0 - drop) as u8, self.steps[0].1))
            } else {
                None
            },
            _ => if 0 <= band < self.steps.len() {
                Some(self.steps[band])
            } else {
                None
            },
        }
    }
}

/// Quantization default: the style, the guard-bit count, and the step sizes.
#[derive(Debug, PartialEq, Eq)]
pub struct Qcd {
    pub style: QuantStyle,
    pub guard_bits: u8,
    /// `(exponent, mantissa)` per subband; the mantissa is 0 without quantization.
    pub steps: Vec<(u8, u16)>,
}

impl View for Qcd {
    type V = QcdView;

    open spec fn view(&self) -> QcdView {
        QcdView { style: self.style, guard_bits: self.guard_bits, steps: self.steps@ }
    }
}

impl Clone for Qcd {
    fn clone(&self) -> (r: Self)
        ensures
            r@ == self@,
    {
        Qcd {
            style: self.style,
            guard_bits: self.guard_bits,
            steps: slice_to_vec(self.steps.as_slice()),
        }
    }
}

impl Qcd {
    /// The quantization pair of subband `band`, or `None` if the table does not
    /// carry it.
    pub fn subband_step(&self, band: usize) -> (r: Option<(u8, u16)>)
        ensures
            r == self@.subband_step(band as int),
    {
        match self.style {
            QuantStyle::ScalarDerived => {
                if self.steps.len() == 0 {
                    return None;
                }
                let (exp, mant): (u8, u16) = self.steps[0];
                let drop: usize = if band == 0 { 0 } else { (band - 1) / 3 };
                let exp: u8 = if drop < exp as usize { exp - drop as u8 } else { 0 };
                Some((exp, mant))
            },
            _ => {
                if band < self.steps.len() {
                    Some(self.steps[band])
                } else {
                    None
                }
            },
        }
    }
}

/// A component's effective parameters.
pub struct ParamsView {
    pub coding: CodingView,
    pub quant: QcdView,
    pub roi_shift: u8,
}

/// A component's effective coding and quantization parameters, after the
/// overrides have been laid over the defaults.
#[derive(Debug, PartialEq, Eq)]
pub struct ComponentParams {
    pub coding: Coding,
    pub quant: Qcd,
    /// The maxshift of the component's region of interest, 0 without one.
    pub roi_shift: u8,
}

impl View for ComponentParams {
    type V = ParamsView;

    open spec fn view(&self) -> ParamsView {
        ParamsView { coding: self.coding@, quant: self.quant@, roi_shift: self.roi_shift }
    }
}

impl Clone for ComponentParams {
    fn clone(&self) -> (r: Self)
        ensures
            r@ == self@,
    {
        ComponentParams {
            coding: self.coding.clone(),
            quant: self.quant.clone(),
            roi_shift: self.roi_shift,
        }
    }
}

/// Every component's parameters.
pub open spec fn params_views(s: Seq<ComponentParams>) -> Seq<ParamsView> {
    Seq::new(s.len(), |i: int| s[i]@)
}

/// Coding style default.
pub struct CodView {
    pub progression: Progression,
    pub layers: u16,
    pub use_sop: bool,
    pub use_eph: bool,
    pub multiple_component_transform: bool,
    pub coding: CodingView,
}

/// Coding style default: the codestream-wide parameters and the coding that
/// every component takes unless it overrides it.
#[derive(Debug, PartialEq, Eq)]
pub struct Cod {
    pub progression: Progression,
    pub layers: u16,
    pub decomposition_levels: u8,
    /// Exponent: the width is `2^(value + 2)`.
    pub code_block_width: u8,
    /// Exponent: the height is `2^(value + 2)`.
    pub code_block_height: u8,
    /// The [`code_block_style`] flags.
    pub code_block_style: u8,
    /// SOP marker segments may precede each packet.
    pub use_sop: bool,
    /// An EPH marker follows every packet header.
    pub use_eph: bool,
    /// The first three components were decorrelated before the wavelet.
    pub multiple_component_transform: bool,
    pub transform: Transform,
    /// Explicit precinct exponents per resolution; empty when maximal.
    pub precinct_sizes: Vec<(u8, u8)>,
}

impl View for Cod {
    type V = CodView;

    open spec fn view(&self) -> CodView {
        CodView {
            progression: self.progression,
            layers: self.layers,
            use_sop: self.use_sop,
            use_eph: self.use_eph,
            multiple_component_transform: self.multiple_component_transform,
            coding: CodingView {
                decomposition_levels: self.decomposition_levels,
                code_block_width: self.code_block_width,
                code_block_height: self.code_block_height,
                code_block_style: self.code_block_style,
                transform: self.transform,
                precinct_sizes: self.precinct_sizes@,
            },
        }
    }
}

impl Clone for Cod {
    fn clone(&self) -> (r: Self)
        ensures
            r@ == self@,
    {
        Cod {
            progression: self.progression,
            layers: self.layers,
            decomposition_levels: self.decomposition_levels,
            code_block_width: self.code_block_width,
            code_block_height: self.code_block_height,
            code_block_style: self.code_block_style,
            use_sop: self.use_sop,
            use_eph: self.use_eph,
            multiple_component_transform: self.multiple_component_transform,
            transform: self.transform,
            precinct_sizes: slice_to_vec(self.precinct_sizes.as_slice()),
        }
    }
}

impl Cod {
    /// The coding parameters that every component takes unless it overrides them.
    pub fn coding(&self) -> (c: Coding)
        ensures
            c@ == self@.coding,
    {
        Coding {
            decomposition_levels: self.decomposition_levels,
            code_block_width: self.code_block_width,
            code_block_height: self.code_block_height,
            code_block_style: self.code_block_style,
            transform: self.transform,
            precinct_sizes: slice_to_vec(self.precinct_sizes.as_slice()),
        }
    }
}

} // verus!
