//! Tile-component geometry (ISO/IEC 15444-1 B.5 to B.7): a tile-component's
//! rectangle into resolutions, precincts, subbands and code-blocks.
//!
//! Every partition is anchored at the canvas origin. The two decode guards,
//! [`MAX_PRECINCTS`] and [`MAX_CODE_BLOCKS`], are spent while the geometry is
//! built, before what they bound is allocated.

use super::BandKind;
use crate::codestream::markers::{CodingView, Rect};
use crate::codestream::{HeaderView, MainHeader};
use crate::error::{fault, Error, ErrorKind, Fault, Result};
use crate::math::{
    ceil_div, ceil_div_i64, floor_div_i64, lemma_ceil_div, lemma_ceil_div_mono, lemma_index_bound,
    max_int, min_int, pow2_i64,
};
use crate::text::{
    decimal, decimal_text, no_coding, no_coding_text, no_place, no_place_text,
};
use vstd::arithmetic::power2::{lemma2_to64, lemma_pow2_pos, lemma_pow2_strictly_increases, pow2};
use vstd::prelude::*;

verus! {

/// Ceiling on the precincts of one tile, over every component and resolution.
pub const MAX_PRECINCTS: usize = 262144;

/// Ceiling on the code-blocks of one tile, over every component and subband.
pub const MAX_CODE_BLOCKS: usize = 524288;

/// The largest precinct exponent.
pub const MAX_PRECINCT_EXPONENT: u32 = 15;

/// A half-open range of coordinates.
pub struct Span {
    pub lo: int,
    pub hi: int,
}

/// How many cells of a grid anchored at the origin meet the span.
pub open spec fn cells(s: Span, cell: int) -> int {
    if s.hi <= s.lo {
        0
    } else {
        ceil_div(s.hi, cell) - s.lo / cell
    }
}

/// The index of the first cell that meets the span; 0 for an empty span.
pub open spec fn first_cell(s: Span, cell: int) -> int {
    if s.hi <= s.lo {
        0
    } else {
        s.lo / cell
    }
}

/// Cell `i` of a grid, clipped to the span.
pub open spec fn clip(s: Span, i: int, cell: int) -> Span {
    Span { lo: max_int(i * cell, s.lo), hi: min_int(i * cell + cell, s.hi) }
}

/// The span's extent, 0 when it is empty.
pub open spec fn extent(s: Span) -> int {
    max_int(0, s.hi - s.lo)
}

/// One precinct's slice of one subband: a rectangle of its code-block grid.
pub struct PrecinctView {
    pub cols: nat,
    pub rows: nat,
    /// Indices into the band's blocks, row-major within the precinct.
    pub blocks: Seq<usize>,
}

/// One subband's geometry.
pub struct BandView {
    pub kind: BandKind,
    pub origin: (u32, u32),
    pub width: nat,
    pub height: nat,
    pub block_cols: nat,
    pub block_rows: nat,
    /// Position and size of every block within the band, row-major.
    pub blocks: Seq<(usize, usize, usize, usize)>,
    /// One entry per precinct of the resolution, row-major.
    pub precincts: Seq<PrecinctView>,
}

/// One resolution's geometry.
pub struct ResolutionView {
    pub ppx: nat,
    pub ppy: nat,
    pub precincts_wide: nat,
    pub precincts_high: nat,
    pub bands: Seq<BandView>,
}

/// The precinct partition as it lands on a subband grid: the index of the first
/// code-block group on each axis, the group's exponents and the grid's extent.
pub struct Groups {
    pub x: int,
    pub y: int,
    pub x_exp: nat,
    pub y_exp: nat,
    pub wide: int,
    pub high: int,
}

/// Position and size, within the band, of block `k` of its grid.
pub open spec fn block_spec(bx: Span, by: Span, cbw: int, cbh: int, k: int) -> (
    usize,
    usize,
    usize,
    usize,
) {
    let cols = cells(bx, cbw);
    let cx = clip(bx, first_cell(bx, cbw) + k % cols, cbw);
    let cy = clip(by, first_cell(by, cbh) + k / cols, cbh);
    (
        (cx.lo - bx.lo) as usize,
        (cy.lo - by.lo) as usize,
        (cx.hi - cx.lo) as usize,
        (cy.hi - cy.lo) as usize,
    )
}

/// The blocks that precinct `k` owns: those of its code-block group.
pub open spec fn precinct_spec(bx: Span, by: Span, cbw: int, cbh: int, g: Groups, k: int) -> PrecinctView {
    let px = clip(bx, g.x + k % g.wide, pow2(g.x_exp) as int);
    let py = clip(by, g.y + k / g.wide, pow2(g.y_exp) as int);
    let cols = cells(px, cbw);
    let rows = cells(py, cbh);
    PrecinctView {
        cols: cols as nat,
        rows: rows as nat,
        blocks: Seq::new(
            (cols * rows) as nat,
            |m: int|
                ((first_cell(py, cbh) + m / cols - first_cell(by, cbh)) * cells(bx, cbw) + (
                first_cell(px, cbw) + m % cols - first_cell(bx, cbw))) as usize,
        ),
    }
}

/// The geometry of the subband that spans `bx` by `by`, with code-blocks of
/// `2^xcb` by `2^ycb`.
pub open spec fn band_spec(kind: BandKind, bx: Span, by: Span, xcb: nat, ycb: nat, g: Groups) -> BandView {
    let cbw = pow2(xcb) as int;
    let cbh = pow2(ycb) as int;
    BandView {
        kind,
        origin: (max_int(0, bx.lo) as u32, max_int(0, by.lo) as u32),
        width: extent(bx) as nat,
        height: extent(by) as nat,
        block_cols: cells(bx, cbw) as nat,
        block_rows: cells(by, cbh) as nat,
        blocks: Seq::new(
            (cells(bx, cbw) * cells(by, cbh)) as nat,
            |k: int| block_spec(bx, by, cbw, cbh, k),
        ),
        precincts: Seq::new(
            (g.wide * g.high) as nat,
            |k: int| precinct_spec(bx, by, cbw, cbh, g, k),
        ),
    }
}

/// One axis of a resolution `level` decomposition levels below the tile-component.
pub open spec fn resolution_span(lo: int, hi: int, level: nat) -> Span {
    Span { lo: ceil_div(lo, pow2(level) as int), hi: ceil_div(hi, pow2(level) as int) }
}

/// One axis of a detail band at decomposition level `nb`; `high` selects the
/// high-pass half.
pub open spec fn band_span(lo: int, hi: int, nb: nat, high: bool) -> Span {
    let off = if high { pow2((nb - 1) as nat) as int } else { 0 };
    Span { lo: ceil_div(lo - off, pow2(nb) as int), hi: ceil_div(hi - off, pow2(nb) as int) }
}

/// The precincts of resolution `r` on the grid of its subbands. Above resolution
/// 0 that grid is one level coarser than the resolution's, so a group has half
/// the precinct's extent.
pub open spec fn groups_of(tc: Rect, coding: CodingView, r: nat) -> Groups {
    let level = (coding.decomposition_levels - r) as nat;
    let (ppx, ppy) = coding.precinct(r as int);
    let x = resolution_span(tc.x0 as int, tc.x1 as int, level);
    let y = resolution_span(tc.y0 as int, tc.y1 as int, level);
    Groups {
        x: first_cell(x, pow2(ppx) as int),
        y: first_cell(y, pow2(ppy) as int),
        x_exp: if r == 0 { ppx } else { (ppx - 1) as nat },
        y_exp: if r == 0 { ppy } else { (ppy - 1) as nat },
        wide: cells(x, pow2(ppx) as int),
        high: cells(y, pow2(ppy) as int),
    }
}

/// A code-block's exponent: the coding's, capped at its group's.
pub open spec fn block_exponent(field: u8, group: nat) -> nat {
    min_int(field + 2, group as int) as nat
}

/// Band `i` of resolution `r`.
pub open spec fn band_of(tc: Rect, coding: CodingView, r: nat, i: int) -> BandView {
    let g = groups_of(tc, coding, r);
    let xcb = block_exponent(coding.code_block_width, g.x_exp);
    let ycb = block_exponent(coding.code_block_height, g.y_exp);
    let level = (coding.decomposition_levels - r) as nat;
    if r == 0 {
        band_spec(
            BandKind::Ll,
            resolution_span(tc.x0 as int, tc.x1 as int, level),
            resolution_span(tc.y0 as int, tc.y1 as int, level),
            xcb,
            ycb,
            g,
        )
    } else {
        band_spec(
            if i == 0 {
                BandKind::Hl
            } else if i == 1 {
                BandKind::Lh
            } else {
                BandKind::Hh
            },
            band_span(tc.x0 as int, tc.x1 as int, level + 1, i != 1),
            band_span(tc.y0 as int, tc.y1 as int, level + 1, i != 0),
            xcb,
            ycb,
            g,
        )
    }
}

/// How many bands resolution `r` has.
pub open spec fn band_count(r: nat) -> nat {
    if r == 0 {
        1
    } else {
        3
    }
}

/// The geometry of resolution `r` of the tile-component `tc`.
pub open spec fn resolution_spec(tc: Rect, coding: CodingView, r: nat) -> ResolutionView {
    let g = groups_of(tc, coding, r);
    ResolutionView {
        ppx: coding.precinct(r as int).0,
        ppy: coding.precinct(r as int).1,
        precincts_wide: g.wide as nat,
        precincts_high: g.high as nat,
        bands: Seq::new(band_count(r), |i: int| band_of(tc, coding, r, i)),
    }
}

/// Precincts of resolution `r`.
pub open spec fn precincts_in(tc: Rect, coding: CodingView, r: nat) -> int {
    groups_of(tc, coding, r).wide * groups_of(tc, coding, r).high
}

/// Code-blocks of band `i` of resolution `r`.
pub open spec fn blocks_in(tc: Rect, coding: CodingView, r: nat, i: int) -> int {
    (band_of(tc, coding, r, i).block_cols * band_of(tc, coding, r, i).block_rows) as int
}

/// Precincts of the resolutions below `r`.
pub open spec fn precincts_below(tc: Rect, coding: CodingView, r: nat) -> int
    decreases r,
{
    if r == 0 {
        0
    } else {
        precincts_below(tc, coding, (r - 1) as nat) + precincts_in(tc, coding, (r - 1) as nat)
    }
}

/// Code-blocks of the resolutions below `r` and of the first `i` bands of `r`.
pub open spec fn blocks_below(tc: Rect, coding: CodingView, r: nat, i: nat) -> int
    decreases r, i,
{
    if i > 0 {
        blocks_below(tc, coding, r, (i - 1) as nat) + blocks_in(tc, coding, r, i - 1)
    } else if r > 0 {
        blocks_below(tc, coding, (r - 1) as nat, band_count((r - 1) as nat))
    } else {
        0
    }
}

/// A precinct exponent is at most 15, and at least 1 above resolution 0.
pub open spec fn precincts_legal(coding: CodingView) -> bool {
    forall|r: int|
        0 <= r < coding.precinct_sizes.len() ==> {
            let (ppx, ppy) = #[trigger] coding.precinct_sizes[r];
            &&& ppx <= MAX_PRECINCT_EXPONENT
            &&& ppy <= MAX_PRECINCT_EXPONENT
            &&& r > 0 ==> ppx >= 1 && ppy >= 1
        }
}

/// [`precincts_legal`] of every component.
pub open spec fn header_legal(h: HeaderView) -> bool {
    forall|c: int|
        0 <= c < h.components.len() ==> precincts_legal((#[trigger] h.components[c]).coding)
}

/// What is said of a code-block that is too large.
pub open spec fn block_size_text(coding: CodingView) -> Seq<char> {
    "code-block size 2^"@ + decimal_text((coding.code_block_width + 2) as nat) + "×2^"@
        + decimal_text((coding.code_block_height + 2) as nat)
        + " exceeds the 2^10 / xcb+ycb≤12 limit"@
}

/// What is said of too many precincts.
pub open spec fn precincts_text() -> Seq<char> {
    "tile precinct count exceeds the decode guard of "@ + decimal_text(MAX_PRECINCTS as nat)
}

/// What is said of too many code-blocks.
pub open spec fn blocks_text() -> Seq<char> {
    "tile code-block count exceeds the decode guard of "@ + decimal_text(MAX_CODE_BLOCKS as nat)
}

/// Which allowance runs out first, from resolution `r` up. At one resolution the
/// precincts count first.
pub open spec fn overrun_text(
    tc: Rect,
    coding: CodingView,
    r: nat,
    precinct_budget: int,
    block_budget: int,
) -> Seq<char>
    decreases coding.decomposition_levels - r,
{
    if precincts_below(tc, coding, r + 1) > precinct_budget {
        precincts_text()
    } else if blocks_below(tc, coding, r + 1, 0) > block_budget || r
        >= coding.decomposition_levels {
        blocks_text()
    } else {
        overrun_text(tc, coding, r + 1, precinct_budget, block_budget)
    }
}

/// What [`resolution_geoms`] makes of component `comp` of tile `tile`.
pub open spec fn geoms_spec(
    h: HeaderView,
    tile: int,
    comp: int,
    precinct_budget: int,
    block_budget: int,
) -> core::result::Result<Seq<ResolutionView>, Fault> {
    if !(0 <= comp < h.components.len()) {
        Err(fault(ErrorKind::Inconsistent, no_coding_text(comp)))
    } else {
        let coding = h.components[comp].coding;
        let count = coding.decomposition_levels as nat + 1;
        if coding.decomposition_levels > 32 {
            Err(
                fault(
                    ErrorKind::Unsupported,
                    decimal_text(coding.decomposition_levels as nat)
                        + " decomposition levels exceeds the 32-level maximum"@,
                ),
            )
        } else {
            match h.siz.tile_component_rect(tile, comp) {
                None => Err(fault(ErrorKind::Inconsistent, no_place_text(tile, comp))),
                Some(tc) => if tc.x1 <= tc.x0 || tc.y1 <= tc.y0 {
                    Err(
                        fault(
                            ErrorKind::Codestream,
                            "tile "@ + decimal_text(tile as nat)
                                + " has an empty area on component "@ + decimal_text(comp as nat),
                        ),
                    )
                } else if coding.code_block_width > 8 || coding.code_block_height > 8
                    || coding.code_block_width + coding.code_block_height > 8 {
                    Err(fault(ErrorKind::Marker, block_size_text(coding)))
                } else if precincts_below(tc, coding, count) > precinct_budget || blocks_below(
                    tc,
                    coding,
                    count,
                    0,
                ) > block_budget {
                    Err(
                        fault(
                            ErrorKind::Unsupported,
                            overrun_text(tc, coding, 0, precinct_budget, block_budget),
                        ),
                    )
                } else {
                    Ok(Seq::new(count, |r: int| resolution_spec(tc, coding, r as nat)))
                },
            }
        }
    }
}

/// A cell that meets a span, clipped to it, is a non-empty part of it.
pub proof fn lemma_cell_meets(s: Span, cell: int, i: int)
    requires
        cell > 0,
        0 <= i < cells(s, cell),
    ensures
        ({
            let c = clip(s, first_cell(s, cell) + i, cell);
            s.lo <= c.lo < c.hi <= s.hi && c.hi - c.lo <= cell
        }),
{
    let first = s.lo / cell;
    let last = ceil_div(s.hi, cell);
    let k = first + i;
    lemma_ceil_div(s.hi, cell);
    vstd::arithmetic::div_mod::lemma_fundamental_div_mod(s.lo, cell);
    vstd::arithmetic::div_mod::lemma_mod_bound(s.lo, cell);
    assert(k * cell + cell > s.lo) by (nonlinear_arith)
        requires
            k >= first,
            cell > 0,
            s.lo < cell * first + cell,
    ;
    assert(k * cell < s.hi) by (nonlinear_arith)
        requires
            k <= last - 1,
            cell > 0,
            cell * (last - 1) < s.hi,
    ;
}

/// Cells that meet a part of a span are among those that meet the span.
pub proof fn lemma_cells_within(part: Span, whole: Span, cell: int)
    requires
        cell > 0,
        whole.lo <= part.lo,
        part.hi <= whole.hi,
        part.lo < part.hi,
    ensures
        first_cell(whole, cell) <= first_cell(part, cell),
        first_cell(part, cell) + cells(part, cell) <= first_cell(whole, cell) + cells(whole, cell),
{
    vstd::arithmetic::div_mod::lemma_div_is_ordered(whole.lo, part.lo, cell);
    lemma_ceil_div_mono(part.hi, whole.hi, cell);
}

/// A non-empty span meets at least one cell, and no more cells than it has
/// points.
pub proof fn lemma_cells_bound(s: Span, cell: int)
    requires
        cell > 0,
        0 <= s.lo,
    ensures
        0 <= cells(s, cell) <= extent(s),
        s.lo < s.hi ==> cells(s, cell) > 0,
        0 <= first_cell(s, cell),
        s.lo < s.hi ==> first_cell(s, cell) <= s.lo && first_cell(s, cell) + cells(s, cell) <= s.hi,
{
    if s.lo < s.hi {
        let a = s.lo / cell;
        let b = ceil_div(s.hi, cell);
        lemma_ceil_div(s.hi, cell);
        vstd::arithmetic::div_mod::lemma_fundamental_div_mod(s.lo, cell);
        vstd::arithmetic::div_mod::lemma_mod_bound(s.lo, cell);
        vstd::arithmetic::div_mod::lemma_div_pos_is_pos(s.lo, cell);
        assert(a < b) by (nonlinear_arith)
            requires
                cell * a <= s.lo,
                s.lo < s.hi,
                s.hi <= cell * b,
                cell > 0,
        ;
        assert(b - a <= s.hi - s.lo && a <= s.lo && b <= s.hi) by (nonlinear_arith)
            requires
                cell * (b - 1) <= s.hi - 1,
                s.lo <= cell * a + (cell - 1),
                cell * a <= s.lo,
                0 <= a < b,
                cell > 0,
                s.lo < s.hi,
        ;
    }
}

/// One precinct's slice of one subband.
#[derive(Debug)]
pub struct PrecinctGeom {
    pub cols: usize,
    pub rows: usize,
    /// Indices into [`BandGeom::blocks`], row-major within the precinct.
    pub blocks: Vec<usize>,
}

impl View for PrecinctGeom {
    type V = PrecinctView;

    open spec fn view(&self) -> PrecinctView {
        PrecinctView { cols: self.cols as nat, rows: self.rows as nat, blocks: self.blocks@ }
    }
}

/// Every precinct's view.
pub open spec fn precinct_views(s: Seq<PrecinctGeom>) -> Seq<PrecinctView> {
    Seq::new(s.len(), |i: int| s[i]@)
}

/// Geometry of one subband: orientation, origin, extent, the code-block grid and
/// how the precincts divide it.
#[derive(Debug)]
pub struct BandGeom {
    pub kind: BandKind,
    pub origin: (u32, u32),
    pub width: usize,
    pub height: usize,
    pub block_cols: usize,
    pub block_rows: usize,
    /// `(x, y, width, height)` per block, row-major over the whole band.
    pub blocks: Vec<(usize, usize, usize, usize)>,
    /// One entry per precinct of the resolution, in raster order.
    pub precincts: Vec<PrecinctGeom>,
}

impl View for BandGeom {
    type V = BandView;

    open spec fn view(&self) -> BandView {
        BandView {
            kind: self.kind,
            origin: self.origin,
            width: self.width as nat,
            height: self.height as nat,
            block_cols: self.block_cols as nat,
            block_rows: self.block_rows as nat,
            blocks: self.blocks@,
            precincts: precinct_views(self.precincts@),
        }
    }
}

/// Every band's view.
pub open spec fn band_views(s: Seq<BandGeom>) -> Seq<BandView> {
    Seq::new(s.len(), |i: int| s[i]@)
}

/// The executable form of [`Groups`].
struct Cbg {
    x: i64,
    y: i64,
    x_exp: u32,
    y_exp: u32,
    wide: usize,
    high: usize,
}

impl View for Cbg {
    type V = Groups;

    closed spec fn view(&self) -> Groups {
        Groups {
            x: self.x as int,
            y: self.y as int,
            x_exp: self.x_exp as nat,
            y_exp: self.y_exp as nat,
            wide: self.wide as int,
            high: self.high as int,
        }
    }
}

/// How many cells of a grid anchored at the origin meet `[lo, hi)`, and the index
/// of the first one.
fn grid_span(lo: i64, hi: i64, cell: i64) -> (r: (usize, i64))
    requires
        cell > 0,
        0 <= lo,
        hi <= u32::MAX,
    ensures
        r.0 == cells((Span { lo: lo as int, hi: hi as int }), cell as int),
        r.1 == first_cell((Span { lo: lo as int, hi: hi as int }), cell as int),
        0 <= r.1 <= u32::MAX,
        r.0 <= u32::MAX,
        r.1 + r.0 <= u32::MAX,
{
    proof {
        lemma_cells_bound(Span { lo: lo as int, hi: hi as int }, cell as int);
    }
    if hi <= lo {
        return (0, 0);
    }
    let first: i64 = floor_div_i64(lo, cell);
    let last: i64 = ceil_div_i64(hi, cell);
    ((last - first) as usize, first)
}

/// Cell `i` clipped to `[lo, hi)`.
fn clip_cell(lo: i64, hi: i64, i: i64, cell: i64) -> (r: (i64, i64))
    requires
        0 <= lo <= u32::MAX,
        hi <= u32::MAX,
        hi >= 0,
        0 <= i <= u32::MAX,
        0 < cell <= 0x8000,
    ensures
        (Span { lo: r.0 as int, hi: r.1 as int }) == clip(
            (Span { lo: lo as int, hi: hi as int }),
            i as int,
            cell as int,
        ),
        lo <= r.0,
        r.1 <= hi,
{
    assert(0 <= i * cell <= 0xFFFF_FFFF * 0x8000) by (nonlinear_arith)
        requires
            0 <= i <= 0xFFFF_FFFF,
            0 < cell <= 0x8000,
    ;
    let start: i64 = i * cell;
    let end: i64 = start + cell;
    (if start >= lo { start } else { lo }, if end <= hi { end } else { hi })
}

/// The span of two coordinates.
pub open spec fn span(lo: i64, hi: i64) -> Span {
    Span { lo: lo as int, hi: hi as int }
}

/// Every block of a band's code-block grid.
fn band_blocks(bx0: i64, bx1: i64, by0: i64, by1: i64, cbw: i64, cbh: i64) -> (blocks: Vec<
    (usize, usize, usize, usize),
>)
    requires
        0 <= bx0 <= u32::MAX,
        0 <= bx1 <= u32::MAX,
        0 <= by0 <= u32::MAX,
        0 <= by1 <= u32::MAX,
        0 < cbw <= 0x8000,
        0 < cbh <= 0x8000,
        cells(span(bx0, bx1), cbw as int) * cells(span(by0, by1), cbh as int) <= usize::MAX,
    ensures
        blocks@ == Seq::new(
            (cells(span(bx0, bx1), cbw as int) * cells(span(by0, by1), cbh as int)) as nat,
            |k: int| block_spec(span(bx0, bx1), span(by0, by1), cbw as int, cbh as int, k),
        ),
{
    let (cols, first_col): (usize, i64) = grid_span(bx0, bx1, cbw);
    let (rows, first_row): (usize, i64) = grid_span(by0, by1, cbh);
    let n: usize = cols * rows;
    let mut blocks: Vec<(usize, usize, usize, usize)> = Vec::new();
    let mut k: usize = 0;
    while k < n
        invariant
            0 <= bx0 <= u32::MAX,
            0 <= bx1 <= u32::MAX,
            0 <= by0 <= u32::MAX,
            0 <= by1 <= u32::MAX,
            0 < cbw <= 0x8000,
            0 < cbh <= 0x8000,
            cols == cells(span(bx0, bx1), cbw as int),
            rows == cells(span(by0, by1), cbh as int),
            first_col == first_cell(span(bx0, bx1), cbw as int),
            first_row == first_cell(span(by0, by1), cbh as int),
            0 <= first_col,
            0 <= first_row,
            first_col + cols <= u32::MAX,
            first_row + rows <= u32::MAX,
            n == cols * rows,
            k <= n,
            blocks@.len() == k,
            forall|j: int|
                0 <= j < k ==> #[trigger] blocks@[j] == block_spec(
                    span(bx0, bx1),
                    span(by0, by1),
                    cbw as int,
                    cbh as int,
                    j,
                ),
        decreases n - k,
    {
        proof {
            lemma_grid_position(k as int, cols as int, rows as int);
        }
        let i: usize = k % cols;
        let j: usize = k / cols;
        proof {
            lemma_cell_meets(span(bx0, bx1), cbw as int, i as int);
            lemma_cell_meets(span(by0, by1), cbh as int, j as int);
        }
        let (cx0, cx1): (i64, i64) = clip_cell(bx0, bx1, first_col + i as i64, cbw);
        let (cy0, cy1): (i64, i64) = clip_cell(by0, by1, first_row + j as i64, cbh);
        blocks.push(
            (
                (cx0 - bx0) as usize,
                (cy0 - by0) as usize,
                (cx1 - cx0) as usize,
                (cy1 - cy0) as usize,
            ),
        );
        k = k + 1;
    }
    assert(blocks@ =~= Seq::new(
        (cells(span(bx0, bx1), cbw as int) * cells(span(by0, by1), cbh as int)) as nat,
        |k: int| block_spec(span(bx0, bx1), span(by0, by1), cbw as int, cbh as int, k),
    ));
    blocks
}

/// Position `k` of a row-major grid has a column and a row.
pub proof fn lemma_grid_position(k: int, cols: int, rows: int)
    requires
        0 <= k < cols * rows,
        0 <= cols,
        0 <= rows,
    ensures
        cols > 0,
        rows > 0,
        0 <= k % cols < cols,
        0 <= k / cols < rows,
        k == (k / cols) * cols + k % cols,
{
    assert(cols > 0 && rows > 0) by (nonlinear_arith)
        requires
            0 <= k < cols * rows,
            0 <= cols,
            0 <= rows,
    ;
    vstd::arithmetic::div_mod::lemma_fundamental_div_mod(k, cols);
    vstd::arithmetic::div_mod::lemma_mod_bound(k, cols);
    vstd::arithmetic::div_mod::lemma_div_pos_is_pos(k, cols);
    let q = k / cols;
    assert(q < rows) by (nonlinear_arith)
        requires
            k < cols * rows,
            k == cols * q + k % cols,
            k % cols >= 0,
            cols > 0,
    ;
    assert(cols * q == q * cols) by (nonlinear_arith);
}

/// The blocks of the code-block group at `(gx, gy)`, as indices into the band.
fn precinct_geom(
    bx0: i64,
    bx1: i64,
    by0: i64,
    by1: i64,
    cbw: i64,
    cbh: i64,
    cbg: &Cbg,
    k: usize,
) -> (p: PrecinctGeom)
    requires
        0 <= bx0 <= u32::MAX,
        0 <= bx1 <= u32::MAX,
        0 <= by0 <= u32::MAX,
        0 <= by1 <= u32::MAX,
        0 < cbw <= 0x8000,
        0 < cbh <= 0x8000,
        cells(span(bx0, bx1), cbw as int) * cells(span(by0, by1), cbh as int) <= usize::MAX,
        cbg_fits(*cbg),
        k < cbg@.wide * cbg@.high,
    ensures
        p@ == precinct_spec(
            span(bx0, bx1),
            span(by0, by1),
            cbw as int,
            cbh as int,
            cbg@,
            k as int,
        ),
{
    let ghost bx = span(bx0, bx1);
    let ghost by = span(by0, by1);
    proof {
        lemma_grid_position(k as int, cbg@.wide, cbg@.high);
        lemma_exponent(cbg@.x_exp);
        lemma_exponent(cbg@.y_exp);
    }
    let i: usize = k % cbg.wide;
    let j: usize = k / cbg.wide;
    let (px0, px1): (i64, i64) = clip_cell(bx0, bx1, cbg.x + i as i64, pow2_i64(cbg.x_exp));
    let (py0, py1): (i64, i64) = clip_cell(by0, by1, cbg.y + j as i64, pow2_i64(cbg.y_exp));
    let ghost px = span(px0, px1);
    let ghost py = span(py0, py1);
    let (block_cols, first_col): (usize, i64) = grid_span(bx0, bx1, cbw);
    let (block_rows, first_row): (usize, i64) = grid_span(by0, by1, cbh);
    let (cols, col0): (usize, i64) = grid_span(px0, px1, cbw);
    let (rows, row0): (usize, i64) = grid_span(py0, py1, cbh);
    let mut blocks: Vec<usize> = Vec::new();
    let ghost goal = precinct_spec(bx, by, cbw as int, cbh as int, cbg@, k as int);
    if cols > 0 && rows > 0 {
        proof {
            lemma_cells_bound(px, cbw as int);
            lemma_cells_bound(py, cbh as int);
            lemma_cells_within(px, bx, cbw as int);
            lemma_cells_within(py, by, cbh as int);
            assert(cols * rows <= block_cols * block_rows) by (nonlinear_arith)
                requires
                    0 <= cols <= block_cols,
                    0 <= rows <= block_rows,
            ;
        }
        let n: usize = cols * rows;
        let mut m: usize = 0;
        while m < n
            invariant
                n == cols * rows,
                cols == cells(px, cbw as int),
                rows == cells(py, cbh as int),
                col0 == first_cell(px, cbw as int),
                row0 == first_cell(py, cbh as int),
                block_cols == cells(bx, cbw as int),
                block_rows == cells(by, cbh as int),
                first_col == first_cell(bx, cbw as int),
                first_row == first_cell(by, cbh as int),
                0 <= first_col <= col0,
                0 <= first_row <= row0,
                col0 + cols <= first_col + block_cols,
                row0 + rows <= first_row + block_rows,
                first_col + block_cols <= u32::MAX,
                first_row + block_rows <= u32::MAX,
                block_cols * block_rows <= usize::MAX,
                m <= n,
                blocks@.len() == m,
                goal.blocks == Seq::new(
                    (cols * rows) as nat,
                    |m: int|
                        ((row0 + m / (cols as int) - first_row) * block_cols + (col0 + m % (
                        cols as int) - first_col)) as usize,
                ),
                forall|t: int| 0 <= t < m ==> #[trigger] blocks@[t] == goal.blocks[t],
            decreases n - m,
        {
            proof {
                lemma_grid_position(m as int, cols as int, rows as int);
            }
            let band_row: usize = (row0 + (m / cols) as i64 - first_row) as usize;
            let band_col: usize = (col0 + (m % cols) as i64 - first_col) as usize;
            proof {
                lemma_index_bound(
                    band_col as int,
                    band_row as int,
                    block_cols as int,
                    block_rows as int,
                );
            }
            blocks.push(band_row * block_cols + band_col);
            m = m + 1;
        }
        assert(blocks@ =~= goal.blocks);
    } else {
        assert(cols * rows == 0) by (nonlinear_arith)
            requires
                cols == 0 || rows == 0,
        ;
        assert(blocks@ =~= goal.blocks);
    }
    PrecinctGeom { cols, rows, blocks }
}

/// `2^exp` for a precinct or code-block exponent.
proof fn lemma_exponent(exp: nat)
    requires
        exp <= MAX_PRECINCT_EXPONENT,
    ensures
        0 < pow2(exp) <= 0x8000,
{
    lemma2_to64();
    lemma_pow2_pos(exp);
    if exp < 15 {
        lemma_pow2_strictly_increases(exp, 15);
    }
}

/// The group grid is within the coordinates' range.
spec fn cbg_fits(cbg: Cbg) -> bool {
    &&& 0 <= cbg@.x
    &&& 0 <= cbg@.y
    &&& cbg@.x + cbg@.wide <= u32::MAX
    &&& cbg@.y + cbg@.high <= u32::MAX
    &&& cbg@.wide * cbg@.high <= usize::MAX
    &&& cbg@.x_exp <= MAX_PRECINCT_EXPONENT
    &&& cbg@.y_exp <= MAX_PRECINCT_EXPONENT
}

/// Build one subband's geometry, spending its code-blocks from the tile's
/// allowance before any of them is allocated.
fn band_geom(
    kind: BandKind,
    bx0: i64,
    bx1: i64,
    by0: i64,
    by1: i64,
    xcb: u32,
    ycb: u32,
    cbg: &Cbg,
    block_budget: &mut usize,
) -> (r: Result<BandGeom>)
    requires
        0 <= bx0 <= u32::MAX,
        0 <= bx1 <= u32::MAX,
        0 <= by0 <= u32::MAX,
        0 <= by1 <= u32::MAX,
        xcb <= MAX_PRECINCT_EXPONENT,
        ycb <= MAX_PRECINCT_EXPONENT,
        cbg_fits(*cbg),
    ensures
        ({
            let want = band_spec(
                kind,
                span(bx0, bx1),
                span(by0, by1),
                xcb as nat,
                ycb as nat,
                cbg@,
            );
            let n = want.block_cols * want.block_rows;
            match r {
                Ok(band) => {
                    &&& band@ == want
                    &&& n <= *old(block_budget)
                    &&& *final(block_budget) == *old(block_budget) - n
                },
                Err(e) => {
                    &&& e@ == fault(ErrorKind::Unsupported, blocks_text())
                    &&& n > *old(block_budget)
                },
            }
        }),
{
    proof {
        lemma_exponent(xcb as nat);
        lemma_exponent(ycb as nat);
    }
    let cbw: i64 = pow2_i64(xcb);
    let cbh: i64 = pow2_i64(ycb);
    let (block_cols, _first_col): (usize, i64) = grid_span(bx0, bx1, cbw);
    let (block_rows, _first_row): (usize, i64) = grid_span(by0, by1, cbh);
    let count: Option<usize> = block_cols.checked_mul(block_rows);
    match count {
        Some(n) if n <= *block_budget => {
            *block_budget = *block_budget - n;
        },
        _ => {
            return Err(
                Error::Unsupported(
                    "tile code-block count exceeds the decode guard of ".to_string().concat(
                        decimal(MAX_CODE_BLOCKS as u64).as_str(),
                    ),
                ),
            );
        },
    }
    let blocks: Vec<(usize, usize, usize, usize)> = band_blocks(bx0, bx1, by0, by1, cbw, cbh);
    let mut precincts: Vec<PrecinctGeom> = Vec::new();
    let total: usize = cbg.wide * cbg.high;
    let ghost bx = span(bx0, bx1);
    let ghost by = span(by0, by1);
    while precincts.len() < total
        invariant
            0 <= bx0 <= u32::MAX,
            0 <= bx1 <= u32::MAX,
            0 <= by0 <= u32::MAX,
            0 <= by1 <= u32::MAX,
            0 < cbw <= 0x8000,
            0 < cbh <= 0x8000,
            bx == span(bx0, bx1),
            by == span(by0, by1),
            cells(bx, cbw as int) * cells(by, cbh as int) <= usize::MAX,
            cbg_fits(*cbg),
            total == cbg@.wide * cbg@.high,
            precincts@.len() <= total,
            forall|k: int|
                0 <= k < precincts@.len() ==> (#[trigger] precincts@[k])@ == precinct_spec(
                    bx,
                    by,
                    cbw as int,
                    cbh as int,
                    cbg@,
                    k,
                ),
        decreases total - precincts@.len(),
    {
        let p: PrecinctGeom = precinct_geom(bx0, bx1, by0, by1, cbw, cbh, cbg, precincts.len());
        precincts.push(p);
    }
    let width: usize = if bx1 > bx0 { (bx1 - bx0) as usize } else { 0 };
    let height: usize = if by1 > by0 { (by1 - by0) as usize } else { 0 };
    let band = BandGeom {
        kind,
        origin: (bx0 as u32, by0 as u32),
        width,
        height,
        block_cols,
        block_rows,
        blocks,
        precincts,
    };
    proof {
        let want = band_spec(kind, bx, by, xcb as nat, ycb as nat, cbg@);
        assert(band@.precincts =~= want.precincts);
        assert(band@.blocks == want.blocks);
    }
    Ok(band)
}

/// One resolution of a tile-component: its precinct grid and its subbands. A
/// resolution whose rectangle is empty has no precincts and carries no packets.
#[derive(Debug)]
pub struct ResolutionGeom {
    /// Precinct exponents on this resolution's grid.
    pub ppx: u32,
    pub ppy: u32,
    /// The precinct grid.
    pub precincts_wide: usize,
    pub precincts_high: usize,
    pub bands: Vec<BandGeom>,
}

impl View for ResolutionGeom {
    type V = ResolutionView;

    open spec fn view(&self) -> ResolutionView {
        ResolutionView {
            ppx: self.ppx as nat,
            ppy: self.ppy as nat,
            precincts_wide: self.precincts_wide as nat,
            precincts_high: self.precincts_high as nat,
            bands: band_views(self.bands@),
        }
    }
}

/// Every resolution's view.
pub open spec fn resolution_views(s: Seq<ResolutionGeom>) -> Seq<ResolutionView> {
    Seq::new(s.len(), |i: int| s[i]@)
}

impl ResolutionGeom {
    /// How many packets this resolution carries per layer and component: one per
    /// precinct.
    pub fn precinct_count(&self) -> (n: usize)
        requires
            self@.precincts_wide * self@.precincts_high <= usize::MAX,
        ensures
            n == self@.precincts_wide * self@.precincts_high,
    {
        self.precincts_wide * self.precincts_high
    }
}

/// A legal coding's precinct exponents.
pub proof fn lemma_precinct_legal(coding: CodingView, r: int)
    requires
        precincts_legal(coding),
        0 <= r,
    ensures
        coding.precinct(r).0 <= MAX_PRECINCT_EXPONENT,
        coding.precinct(r).1 <= MAX_PRECINCT_EXPONENT,
        r > 0 ==> coding.precinct(r).0 >= 1 && coding.precinct(r).1 >= 1,
{
    if r < coding.precinct_sizes.len() {
        let t = coding.precinct_sizes[r];
    }
}

/// A coordinate on a coarser grid is no larger, and never negative.
proof fn lemma_coarser_bound(v: int, off: int, p: int)
    requires
        0 <= v <= u32::MAX,
        0 <= off < p,
    ensures
        0 <= ceil_div(v - off, p) <= u32::MAX,
{
    lemma_ceil_div(v - off, p);
    let q = ceil_div(v - off, p);
    assert(q >= 0) by (nonlinear_arith)
        requires
            v - off <= p * q,
            v >= 0,
            off < p,
            p > 0,
    ;
    assert(q <= 0xFFFF_FFFF) by (nonlinear_arith)
        requires
            p * (q - 1) < v - off,
            v <= 0xFFFF_FFFF,
            off >= 0,
            p > 0,
            q >= 0,
    ;
}

/// One axis of a resolution or band at level `nb`.
fn coarse_span(lo: u32, hi: u32, nb: u32, high: bool) -> (r: (i64, i64))
    requires
        nb <= 32,
        high ==> nb >= 1,
    ensures
        !high ==> span(r.0, r.1) == resolution_span(lo as int, hi as int, nb as nat),
        nb >= 1 ==> span(r.0, r.1) == band_span(lo as int, hi as int, nb as nat, high),
        0 <= r.0 <= u32::MAX,
        0 <= r.1 <= u32::MAX,
{
    let p: i64 = pow2_i64(nb);
    let off: i64 = if high { pow2_i64(nb - 1) } else { 0 };
    proof {
        if high {
            lemma_pow2_strictly_increases((nb - 1) as nat, nb as nat);
        }
        lemma_pow2_strictly_increases(nb as nat, 33);
        lemma2_to64();
        lemma_coarser_bound(lo as int, off as int, p as int);
        lemma_coarser_bound(hi as int, off as int, p as int);
    }
    (ceil_div_i64(lo as i64 - off, p), ceil_div_i64(hi as i64 - off, p))
}

/// The geometry of resolution `r` of the tile-component `tc`, spending its
/// precincts and code-blocks from the tile's allowances.
fn resolution_geom(
    tc: Rect,
    coding: &crate::codestream::markers::Coding,
    r: u8,
    precinct_budget: &mut usize,
    block_budget: &mut usize,
) -> (res: Result<ResolutionGeom>)
    requires
        r <= coding@.decomposition_levels <= 32,
        precincts_legal(coding@),
        coding@.code_block_width <= 8,
        coding@.code_block_height <= 8,
    ensures
        match res {
            Ok(g) => {
                &&& g@ == resolution_spec(tc, coding@, r as nat)
                &&& precincts_in(tc, coding@, r as nat) <= *old(precinct_budget)
                &&& *final(precinct_budget) == *old(precinct_budget) - precincts_in(
                    tc,
                    coding@,
                    r as nat,
                )
                &&& *final(block_budget) + blocks_below(
                    tc,
                    coding@,
                    r as nat,
                    band_count(r as nat),
                ) == *old(block_budget) + blocks_below(tc, coding@, r as nat, 0)
            },
            Err(e) => {
                let many = precincts_in(tc, coding@, r as nat) > *old(precinct_budget);
                &&& e@ == fault(
                    ErrorKind::Unsupported,
                    if many {
                        precincts_text()
                    } else {
                        blocks_text()
                    },
                )
                &&& many || exists|i: nat|
                    i <= band_count(r as nat) && #[trigger] blocks_below(tc, coding@, r as nat, i)
                        > *old(block_budget) + blocks_below(tc, coding@, r as nat, 0)
            },
        },
{
    let ghost n = r as nat;
    let ghost g = groups_of(tc, coding@, n);
    let level: u32 = (coding.decomposition_levels - r) as u32;
    let (trx0, trx1): (i64, i64) = coarse_span(tc.x0, tc.x1, level, false);
    let (try0, try1): (i64, i64) = coarse_span(tc.y0, tc.y1, level, false);
    let (ppx, ppy): (u32, u32) = coding.precinct(r as usize);
    proof {
        lemma_precinct_legal(coding@, r as int);
        lemma_exponent(ppx as nat);
        lemma_exponent(ppy as nat);
    }
    let (wide, x): (usize, i64) = grid_span(trx0, trx1, pow2_i64(ppx));
    let (high, y): (usize, i64) = grid_span(try0, try1, pow2_i64(ppy));
    match wide.checked_mul(high) {
        Some(count) if count <= *precinct_budget => {
            *precinct_budget = *precinct_budget - count;
        },
        _ => {
            return Err(
                Error::Unsupported(
                    "tile precinct count exceeds the decode guard of ".to_string().concat(
                        decimal(MAX_PRECINCTS as u64).as_str(),
                    ),
                ),
            );
        },
    }
    let x_exp: u32 = if r == 0 { ppx } else { ppx - 1 };
    let y_exp: u32 = if r == 0 { ppy } else { ppy - 1 };
    let cbg = Cbg { x, y, x_exp, y_exp, wide, high };
    assert(cbg@ == g);
    let xcb: u32 = if (coding.code_block_width as u32 + 2) < x_exp {
        coding.code_block_width as u32 + 2
    } else {
        x_exp
    };
    let ycb: u32 = if (coding.code_block_height as u32 + 2) < y_exp {
        coding.code_block_height as u32 + 2
    } else {
        y_exp
    };
    let mut bands: Vec<BandGeom> = Vec::new();
    if r == 0 {
        let band: BandGeom = match band_geom(
            BandKind::Ll,
            trx0,
            trx1,
            try0,
            try1,
            xcb,
            ycb,
            &cbg,
            block_budget,
        ) {
            Ok(band) => band,
            Err(e) => {
                assert(blocks_below(tc, coding@, n, 1) > *old(block_budget) + blocks_below(
                    tc,
                    coding@,
                    n,
                    0,
                ));
                return Err(e);
            },
        };
        bands.push(band);
    } else {
        while bands.len() < 3
            invariant
                n == r,
                n > 0,
                r <= coding@.decomposition_levels <= 32,
                level == coding@.decomposition_levels - r,
                bands@.len() <= 3,
                precincts_in(tc, coding@, n) <= *old(precinct_budget),
                cbg@ == g,
                g == groups_of(tc, coding@, n),
                cbg_fits(cbg),
                xcb == block_exponent(coding@.code_block_width, g.x_exp),
                ycb == block_exponent(coding@.code_block_height, g.y_exp),
                xcb <= MAX_PRECINCT_EXPONENT,
                ycb <= MAX_PRECINCT_EXPONENT,
                forall|i: int|
                    0 <= i < bands@.len() ==> (#[trigger] bands@[i])@ == band_of(
                        tc,
                        coding@,
                        n,
                        i,
                    ),
                *block_budget + blocks_below(tc, coding@, n, bands@.len()) == *old(block_budget)
                    + blocks_below(tc, coding@, n, 0),
            decreases 3 - bands@.len(),
        {
            let i: usize = bands.len();
            let kind: BandKind = if i == 0 {
                BandKind::Hl
            } else if i == 1 {
                BandKind::Lh
            } else {
                BandKind::Hh
            };
            let (bx0, bx1): (i64, i64) = coarse_span(tc.x0, tc.x1, level + 1, i != 1);
            let (by0, by1): (i64, i64) = coarse_span(tc.y0, tc.y1, level + 1, i != 0);
            let ghost before = *block_budget;
            let band: BandGeom = match band_geom(
                kind,
                bx0,
                bx1,
                by0,
                by1,
                xcb,
                ycb,
                &cbg,
                block_budget,
            ) {
                Ok(band) => band,
                Err(e) => {
                    assert(blocks_in(tc, coding@, n, i as int) > before);
                    assert(blocks_below(tc, coding@, n, (i + 1) as nat) > *old(block_budget)
                        + blocks_below(tc, coding@, n, 0));
                    return Err(e);
                },
            };
            bands.push(band);
        }
    }
    let geom = ResolutionGeom { ppx, ppy, precincts_wide: wide, precincts_high: high, bands };
    assert(geom@.bands =~= resolution_spec(tc, coding@, n).bands);
    Ok(geom)
}

/// A resolution has no negative number of precincts.
pub proof fn lemma_precincts_in(tc: Rect, coding: CodingView, r: nat)
    requires
        r <= coding.decomposition_levels <= 32,
    ensures
        precincts_in(tc, coding, r) >= 0,
        groups_of(tc, coding, r).wide >= 0,
        groups_of(tc, coding, r).high >= 0,
        groups_of(tc, coding, r).wide <= u32::MAX,
        groups_of(tc, coding, r).high <= u32::MAX,
{
    let level = (coding.decomposition_levels - r) as nat;
    let (ppx, ppy) = coding.precinct(r as int);
    let x = resolution_span(tc.x0 as int, tc.x1 as int, level);
    let y = resolution_span(tc.y0 as int, tc.y1 as int, level);
    lemma_pow2_pos(level);
    lemma_pow2_pos(ppx);
    lemma_pow2_pos(ppy);
    lemma_coarser_bound(tc.x0 as int, 0, pow2(level) as int);
    lemma_coarser_bound(tc.x1 as int, 0, pow2(level) as int);
    lemma_coarser_bound(tc.y0 as int, 0, pow2(level) as int);
    lemma_coarser_bound(tc.y1 as int, 0, pow2(level) as int);
    lemma_cells_bound(x, pow2(ppx) as int);
    lemma_cells_bound(y, pow2(ppy) as int);
    let g = groups_of(tc, coding, r);
    assert(g.wide * g.high >= 0) by (nonlinear_arith)
        requires
            g.wide >= 0,
            g.high >= 0,
    ;
}

/// Precincts add up with the resolutions.
proof fn lemma_precincts_below_mono(tc: Rect, coding: CodingView, r1: nat, r2: nat)
    requires
        r1 <= r2 <= coding.decomposition_levels + 1,
        coding.decomposition_levels <= 32,
    ensures
        0 <= precincts_below(tc, coding, r1) <= precincts_below(tc, coding, r2),
    decreases r2,
{
    if r2 > 0 {
        lemma_precincts_in(tc, coding, (r2 - 1) as nat);
        if r1 < r2 {
            lemma_precincts_below_mono(tc, coding, r1, (r2 - 1) as nat);
        } else {
            lemma_precincts_below_mono(tc, coding, (r1 - 1) as nat, (r2 - 1) as nat);
        }
    }
}

/// Code-blocks add up with the bands of a resolution.
proof fn lemma_blocks_below_band(tc: Rect, coding: CodingView, r: nat, i: nat, j: nat)
    requires
        i <= j,
    ensures
        blocks_below(tc, coding, r, i) <= blocks_below(tc, coding, r, j),
    decreases j,
{
    if i < j {
        lemma_blocks_below_band(tc, coding, r, i, (j - 1) as nat);
    }
}

/// Code-blocks add up with the resolutions.
proof fn lemma_blocks_below_mono(tc: Rect, coding: CodingView, r1: nat, i: nat, r2: nat)
    requires
        r1 < r2,
        i <= band_count(r1),
    ensures
        blocks_below(tc, coding, r1, i) <= blocks_below(tc, coding, r2, 0),
    decreases r2,
{
    let p = (r2 - 1) as nat;
    lemma_blocks_below_band(tc, coding, r1, i, band_count(r1));
    if r1 < p {
        lemma_blocks_below_mono(tc, coding, r1, i, p);
        lemma_blocks_below_band(tc, coding, p, 0, band_count(p));
    }
}

/// Compute the resolution, precinct, subband and code-block geometry of component
/// `comp` of tile `tile`, coarsest resolution first.
///
/// The two budgets are what is left of the tile's allowances; a component that
/// needs more than they hold is rejected before it is built.
pub fn resolution_geoms(
    header: &MainHeader,
    tile: u32,
    comp: usize,
    precinct_budget: &mut usize,
    block_budget: &mut usize,
) -> (res: Result<Vec<ResolutionGeom>>)
    requires
        header_legal(header@),
    ensures
        match res {
            Ok(geoms) => {
                let tc = header@.siz.tile_component_rect(tile as int, comp as int).unwrap();
                let coding = header@.components[comp as int].coding;
                let count = coding.decomposition_levels as nat + 1;
                &&& geoms_spec(
                    header@,
                    tile as int,
                    comp as int,
                    *old(precinct_budget) as int,
                    *old(block_budget) as int,
                ) == Ok::<Seq<ResolutionView>, Fault>(resolution_views(geoms@))
                &&& *final(precinct_budget) == *old(precinct_budget) - precincts_below(
                    tc,
                    coding,
                    count,
                )
                &&& *final(block_budget) == *old(block_budget) - blocks_below(
                    tc,
                    coding,
                    count,
                    0,
                )
            },
            Err(e) => geoms_spec(
                header@,
                tile as int,
                comp as int,
                *old(precinct_budget) as int,
                *old(block_budget) as int,
            ) == Err::<Seq<ResolutionView>, Fault>(e@),
        },
{
    if comp >= header.components.len() {
        return Err(Error::Inconsistent(no_coding(comp)));
    }
    let coding = &header.components[comp].coding;
    assert(header@.components[comp as int].coding == coding@);
    if coding.decomposition_levels > 32 {
        return Err(
            Error::Unsupported(
                decimal(coding.decomposition_levels as u64).concat(
                    " decomposition levels exceeds the 32-level maximum",
                ),
            ),
        );
    }
    let tc: Rect = match header.siz.tile_component_rect(tile, comp) {
        Some(tc) => tc,
        None => {
            return Err(Error::Inconsistent(no_place(tile, comp)));
        },
    };
    if tc.is_empty() {
        return Err(
            Error::Codestream(
                "tile ".to_string().concat(decimal(tile as u64).as_str()).concat(
                    " has an empty area on component ",
                ).concat(decimal(comp as u64).as_str()),
            ),
        );
    }
    if coding.code_block_width > 8 || coding.code_block_height > 8 || coding.code_block_width
        + coding.code_block_height > 8 {
        return Err(
            Error::Marker(
                "code-block size 2^".to_string().concat(
                    decimal(coding.code_block_width as u64 + 2).as_str(),
                ).concat("×2^").concat(
                    decimal(coding.code_block_height as u64 + 2).as_str(),
                ).concat(" exceeds the 2^10 / xcb+ycb≤12 limit"),
            ),
        );
    }
    let count: usize = coding.decomposition_levels as usize + 1;
    let mut levels: Vec<ResolutionGeom> = Vec::new();
    while levels.len() < count
        invariant
            count == coding@.decomposition_levels + 1,
            coding@.decomposition_levels <= 32,
            precincts_legal(coding@),
            coding@.code_block_width <= 8,
            coding@.code_block_height <= 8,
            levels@.len() <= count,
            forall|r: int|
                0 <= r < levels@.len() ==> (#[trigger] levels@[r])@ == resolution_spec(
                    tc,
                    coding@,
                    r as nat,
                ),
            *precinct_budget + precincts_below(tc, coding@, levels@.len()) == *old(
                precinct_budget,
            ),
            *block_budget + blocks_below(tc, coding@, levels@.len(), 0) == *old(block_budget),
            levels@.len() < count ==> overrun_text(
                tc,
                coding@,
                0,
                *old(precinct_budget) as int,
                *old(block_budget) as int,
            ) == overrun_text(
                tc,
                coding@,
                levels@.len(),
                *old(precinct_budget) as int,
                *old(block_budget) as int,
            ),
            geoms_spec(
                header@,
                tile as int,
                comp as int,
                *old(precinct_budget) as int,
                *old(block_budget) as int,
            ) == (if precincts_below(tc, coding@, count as nat) > *old(precinct_budget)
                || blocks_below(tc, coding@, count as nat, 0) > *old(block_budget) {
                Err(
                    fault(
                        ErrorKind::Unsupported,
                        overrun_text(
                            tc,
                            coding@,
                            0,
                            *old(precinct_budget) as int,
                            *old(block_budget) as int,
                        ),
                    ),
                )
            } else {
                Ok(Seq::new(count as nat, |r: int| resolution_spec(tc, coding@, r as nat)))
            }),
        decreases count - levels@.len(),
    {
        let r: u8 = levels.len() as u8;
        let geom: ResolutionGeom = match resolution_geom(
            tc,
            coding,
            r,
            precinct_budget,
            block_budget,
        ) {
            Ok(geom) => geom,
            Err(e) => {
                proof {
                    let n = r as nat;
                    lemma_precincts_below_mono(tc, coding@, n + 1, count as nat);
                    if exists|i: nat|
                        i <= band_count(n) && #[trigger] blocks_below(tc, coding@, n, i) > *old(
                            block_budget,
                        ) {
                        let i = choose|i: nat|
                            i <= band_count(n) && #[trigger] blocks_below(tc, coding@, n, i)
                                > *old(block_budget);
                        lemma_blocks_below_mono(tc, coding@, n, i, count as nat);
                        lemma_blocks_below_mono(tc, coding@, n, i, n + 1);
                    }
                }
                return Err(e);
            },
        };
        levels.push(geom);
    }
    assert(resolution_views(levels@) =~= Seq::new(
        count as nat,
        |r: int| resolution_spec(tc, coding@, r as nat),
    ));
    Ok(levels)
}

/// The bounds of a resolution's bands are coordinates.
pub proof fn lemma_band_spans(tc: Rect, coding: CodingView, r: nat, i: int)
    requires
        r <= coding.decomposition_levels <= 32,
    ensures
        ({
            let level = (coding.decomposition_levels - r) as nat;
            let x = resolution_span(tc.x0 as int, tc.x1 as int, level);
            let y = resolution_span(tc.y0 as int, tc.y1 as int, level);
            &&& 0 <= x.lo <= u32::MAX
            &&& 0 <= x.hi <= u32::MAX
            &&& 0 <= y.lo <= u32::MAX
            &&& 0 <= y.hi <= u32::MAX
        }),
        ({
            let level = (coding.decomposition_levels - r) as nat;
            let x = band_span(tc.x0 as int, tc.x1 as int, level + 1, i != 1);
            let y = band_span(tc.y0 as int, tc.y1 as int, level + 1, i != 0);
            &&& 0 <= x.lo <= u32::MAX
            &&& 0 <= x.hi <= u32::MAX
            &&& 0 <= y.lo <= u32::MAX
            &&& 0 <= y.hi <= u32::MAX
        }),
{
    let level = (coding.decomposition_levels - r) as nat;
    lemma_pow2_pos(level);
    lemma_pow2_strictly_increases(level, level + 1);
    let p = pow2(level) as int;
    let q = pow2(level + 1) as int;
    lemma_coarser_bound(tc.x0 as int, 0, p);
    lemma_coarser_bound(tc.x1 as int, 0, p);
    lemma_coarser_bound(tc.y0 as int, 0, p);
    lemma_coarser_bound(tc.y1 as int, 0, p);
    lemma_coarser_bound(tc.x0 as int, 0, q);
    lemma_coarser_bound(tc.x1 as int, 0, q);
    lemma_coarser_bound(tc.y0 as int, 0, q);
    lemma_coarser_bound(tc.y1 as int, 0, q);
    lemma_coarser_bound(tc.x0 as int, p, q);
    lemma_coarser_bound(tc.x1 as int, p, q);
    lemma_coarser_bound(tc.y0 as int, p, q);
    lemma_coarser_bound(tc.y1 as int, p, q);
}

/// A part of the tile's code-blocks or precincts is no more than all of them.
pub proof fn lemma_part_of_total(tc: Rect, coding: CodingView, r: nat, i: int)
    requires
        r <= coding.decomposition_levels <= 32,
        0 <= i < band_count(r),
    ensures
        precincts_in(tc, coding, r) <= precincts_below(
            tc,
            coding,
            coding.decomposition_levels as nat + 1,
        ),
        blocks_in(tc, coding, r, i) <= blocks_below(
            tc,
            coding,
            coding.decomposition_levels as nat + 1,
            0,
        ),
{
    let n = coding.decomposition_levels as nat + 1;
    lemma_precincts_below_mono(tc, coding, r + 1, n);
    lemma_precincts_below_mono(tc, coding, r, r);
    lemma_blocks_below_mono(tc, coding, r, (i + 1) as nat, n);
    lemma_blocks_nonnegative(tc, coding, r, i as nat);
}

/// There is no negative number of code-blocks.
proof fn lemma_blocks_nonnegative(tc: Rect, coding: CodingView, r: nat, i: nat)
    ensures
        blocks_below(tc, coding, r, i) >= 0,
    decreases r, i,
{
    if i > 0 {
        lemma_blocks_nonnegative(tc, coding, r, (i - 1) as nat);
    } else if r > 0 {
        lemma_blocks_nonnegative(tc, coding, (r - 1) as nat, band_count((r - 1) as nat));
    }
}

/// There is no negative number of precincts or code-blocks.
pub proof fn lemma_totals_nonnegative(tc: Rect, coding: CodingView)
    requires
        coding.decomposition_levels <= 32,
    ensures
        precincts_below(tc, coding, coding.decomposition_levels as nat + 1) >= 0,
        blocks_below(tc, coding, coding.decomposition_levels as nat + 1, 0) >= 0,
{
    let n = coding.decomposition_levels as nat + 1;
    lemma_precincts_below_mono(tc, coding, 0, n);
    lemma_blocks_nonnegative(tc, coding, n, 0);
}

/// A rectangle's bounds on a sub-sampled grid are coordinates.
pub proof fn lemma_sampled_bounds(r: Rect, dx: int, dy: int)
    requires
        dx > 0,
        dy > 0,
    ensures
        0 <= ceil_div(r.x0 as int, dx) <= u32::MAX,
        0 <= ceil_div(r.x1 as int, dx) <= u32::MAX,
        0 <= ceil_div(r.y0 as int, dy) <= u32::MAX,
        0 <= ceil_div(r.y1 as int, dy) <= u32::MAX,
{
    lemma_coarser_bound(r.x0 as int, 0, dx);
    lemma_coarser_bound(r.x1 as int, 0, dx);
    lemma_coarser_bound(r.y0 as int, 0, dy);
    lemma_coarser_bound(r.y1 as int, 0, dy);
}

} // verus!
