//! The partitions of a subband: its code-blocks tile its samples, and the
//! precincts of its resolution deal out its code-blocks, each to one precinct.

use super::geometry::{
    band_of, block_exponent, block_spec, cells, clip, first_cell, groups_of, lemma_cell_meets,
    lemma_grid_position, lemma_precinct_legal, precinct_spec, precincts_legal, resolution_span,
    BandView, Span,
};
use super::layout::{admitted, band_x, band_y, lemma_axis_halves, lemma_band_layout};
use crate::codestream::markers::{CodingView, Rect};
use crate::math::{
    ceil_div, lemma_ceil_div, lemma_ceil_div_mono, lemma_ceil_div_unique, lemma_index_bound,
    lemma_index_injective,
};
use vstd::arithmetic::div_mod::{
    lemma_div_denominator, lemma_div_is_ordered, lemma_fundamental_div_mod,
    lemma_fundamental_div_mod_converse, lemma_mod_bound,
};
use vstd::arithmetic::power2::{lemma_pow2_adds, lemma_pow2_pos, lemma_pow2_unfold, pow2};
use vstd::prelude::*;

verus! {

/// The block at `(x, y)` with size `(w, h)` holds the band's sample `(px, py)`.
pub open spec fn block_holds(block: (usize, usize, usize, usize), px: int, py: int) -> bool {
    &&& block.0 <= px < block.0 + block.2
    &&& block.1 <= py < block.1 + block.3
}

/// A point of a span lies in one of the cells that meet it, and in no other.
pub proof fn lemma_cell_of_point(s: Span, cell: int, t: int)
    requires
        cell > 0,
        s.lo <= t < s.hi,
    ensures
        0 <= t / cell - first_cell(s, cell) < cells(s, cell),
        forall|i: int|
            #![trigger clip(s, i, cell)]
            (clip(s, i, cell).lo <= t < clip(s, i, cell).hi) == (i == t / cell),
{
    lemma_fundamental_div_mod(t, cell);
    lemma_mod_bound(t, cell);
    lemma_div_is_ordered(s.lo, t, cell);
    lemma_ceil_div(s.hi, cell);
    let q = t / cell;
    let b = ceil_div(s.hi, cell);
    assert(q < b) by (nonlinear_arith)
        requires
            cell * q <= t,
            t < s.hi,
            s.hi <= cell * b,
            cell > 0,
    ;
    assert forall|i: int|
        #![trigger clip(s, i, cell)]
        (clip(s, i, cell).lo <= t < clip(s, i, cell).hi) == (i == q) by {
        assert(i * cell <= t < i * cell + cell <==> i == q) by (nonlinear_arith)
            requires
                t == cell * q + t % cell,
                0 <= t % cell < cell,
        ;
    }
}

/// The index of the block that holds sample `(px, py)` of a band.
pub open spec fn block_at(tc: Rect, coding: CodingView, r: nat, i: int, px: int, py: int) -> int {
    let g = groups_of(tc, coding, r);
    let cbw = pow2(block_exponent(coding.code_block_width, g.x_exp)) as int;
    let cbh = pow2(block_exponent(coding.code_block_height, g.y_exp)) as int;
    let (x, y) = (band_x(tc, coding, r, i), band_y(tc, coding, r, i));
    ((y.lo + py) / cbh - first_cell(y, cbh)) * cells(x, cbw) + ((x.lo + px) / cbw - first_cell(
        x,
        cbw,
    ))
}

/// The code-blocks of a subband tile it: every sample lies in exactly one.
pub proof fn lemma_blocks_tile_band(
    tc: Rect,
    coding: CodingView,
    r: nat,
    i: int,
    px: int,
    py: int,
)
    requires
        admitted(tc),
        precincts_legal(coding),
        r <= coding.decomposition_levels <= 32,
        coding.code_block_width + coding.code_block_height <= 8,
        0 <= px < band_of(tc, coding, r, i).width,
        0 <= py < band_of(tc, coding, r, i).height,
    ensures
        0 <= block_at(tc, coding, r, i, px, py) < band_of(tc, coding, r, i).blocks.len(),
        forall|k: int|
            0 <= k < band_of(tc, coding, r, i).blocks.len() ==> block_holds(
                #[trigger] band_of(tc, coding, r, i).blocks[k],
                px,
                py,
            ) == (k == block_at(tc, coding, r, i, px, py)),
{
    let b = band_of(tc, coding, r, i);
    let (x, y) = (band_x(tc, coding, r, i), band_y(tc, coding, r, i));
    let g = groups_of(tc, coding, r);
    let xcb = block_exponent(coding.code_block_width, g.x_exp);
    let ycb = block_exponent(coding.code_block_height, g.y_exp);
    let (cbw, cbh) = (pow2(xcb) as int, pow2(ycb) as int);
    lemma_band_layout(tc, coding, r, i);
    lemma_precinct_legal(coding, r as int);
    lemma_pow2_pos(xcb);
    lemma_pow2_pos(ycb);
    lemma_cell_of_point(x, cbw, x.lo + px);
    lemma_cell_of_point(y, cbh, y.lo + py);
    let (cols, rows) = (cells(x, cbw), cells(y, cbh));
    let col = (x.lo + px) / cbw - first_cell(x, cbw);
    let row = (y.lo + py) / cbh - first_cell(y, cbh);
    lemma_index_bound(col, row, cols, rows);
    assert(b.width <= 0x400_0000 && b.height <= 0x400_0000) by (nonlinear_arith)
        requires
            b.width * b.height <= 0x400_0000,
            b.width > 0,
            b.height > 0,
    ;
    let at = block_at(tc, coding, r, i, px, py);
    assert(at == row * cols + col);
    assert forall|k: int| 0 <= k < b.blocks.len() implies block_holds(
        #[trigger] b.blocks[k],
        px,
        py,
    ) == (k == at) by {
        lemma_grid_position(k, cols, rows);
        lemma_cell_meets(x, cbw, k % cols);
        lemma_cell_meets(y, cbh, k / cols);
        let cx = clip(x, first_cell(x, cbw) + k % cols, cbw);
        let cy = clip(y, first_cell(y, cbh) + k / cols, cbh);
        assert(b.blocks[k] == block_spec(x, y, cbw, cbh, k));
        assert(block_holds(b.blocks[k], px, py) == (k % cols == col && k / cols == row));
        if k == at {
            lemma_index_injective(k % cols, k / cols, col, row, cols);
        }
    }
}

/// The cells of `cell` that meet a group of `m` cells, clipped to the span, are
/// those of the group that meet the span.
pub proof fn lemma_group_cells(s: Span, cell: int, m: int, a: int, c: int)
    requires
        cell > 0,
        m > 0,
        first_cell(s, cell) <= c < first_cell(s, cell) + cells(s, cell),
    ensures
        ({
            let part = clip(s, a, cell * m);
            (first_cell(part, cell) <= c < first_cell(part, cell) + cells(part, cell)) == (a == c
                / m)
        }),
{
    let big = cell * m;
    let part = clip(s, a, big);
    lemma_fundamental_div_mod(c, m);
    lemma_mod_bound(c, m);
    let q = c / m;
    lemma_cell_meets(s, cell, c - first_cell(s, cell));
    let own = clip(s, c, cell);
    assert(big > 0) by (nonlinear_arith)
        requires
            big == cell * m,
            cell > 0,
            m > 0,
    ;
    assert(a * big == (a * m) * cell && a * big + big == ((a + 1) * m) * cell) by (nonlinear_arith)
        requires
            big == cell * m,
    ;
    if a == q {
        let (u, t) = (a * m, (a + 1) * m);
        assert(u <= c < t) by (nonlinear_arith)
            requires
                u == a * m,
                t == (a + 1) * m,
                c == m * a + c % m,
                0 <= c % m < m,
        ;
        assert(u * cell <= c * cell && c * cell + cell <= t * cell) by (nonlinear_arith)
            requires
                u <= c,
                c + 1 <= t,
                cell > 0,
        ;
        assert(part.lo <= own.lo < own.hi <= part.hi);
        lemma_fundamental_div_mod(part.lo, cell);
        lemma_mod_bound(part.lo, cell);
        let lo = part.lo / cell;
        assert(lo <= c) by (nonlinear_arith)
            requires
                cell * lo <= part.lo,
                part.lo < c * cell + cell,
                cell > 0,
        ;
        lemma_ceil_div(part.hi, cell);
        let hi = ceil_div(part.hi, cell);
        assert(c < hi) by (nonlinear_arith)
            requires
                part.hi <= cell * hi,
                part.hi > c * cell,
                cell > 0,
        ;
    }
    if part.lo < part.hi && first_cell(part, cell) <= c < first_cell(part, cell) + cells(
        part,
        cell,
    ) {
        let (u, t) = (a * m, (a + 1) * m);
        lemma_div_is_ordered(u * cell, part.lo, cell);
        vstd::arithmetic::div_mod::lemma_div_multiples_vanish(u, cell);
        assert(cell * u == u * cell) by (nonlinear_arith);
        lemma_ceil_div_mono(part.hi, t * cell, cell);
        assert(cell * (t - 1) < t * cell && t * cell <= cell * t) by (nonlinear_arith)
            requires
                cell > 0,
        ;
        lemma_ceil_div_unique(t * cell, cell, t);
        assert(u <= c < t);
        assert(m * a <= c < m * a + m) by (nonlinear_arith)
            requires
                u == a * m,
                t == (a + 1) * m,
                u <= c < t,
        ;
        assert(a * m == m * a) by (nonlinear_arith);
        lemma_fundamental_div_mod_converse(c, m, a, c - m * a);
    }
}

/// Entry `j` of precinct `q` of a band is block `k`.
pub open spec fn deals(b: BandView, q: int, j: int, k: int) -> bool {
    &&& 0 <= q < b.precincts.len()
    &&& 0 <= j < b.precincts[q].blocks.len()
    &&& b.precincts[q].blocks[j] == k
}

/// The spans of a band lie within its resolution's precinct groups.
proof fn lemma_groups_cover(lo: int, hi: int, level: nat, high: bool, pp: nat, t: int)
    requires
        lo >= 0,
        pp >= 1,
        ({
            let s = super::geometry::band_span(lo, hi, level + 1, high);
            s.lo <= t < s.hi
        }),
    ensures
        ({
            let whole = resolution_span(lo, hi, level);
            let big = pow2((pp - 1) as nat) as int;
            0 <= t / big - first_cell(whole, pow2(pp) as int) < cells(whole, pow2(pp) as int)
        }),
{
    lemma_axis_halves(lo, hi, level);
    let whole = resolution_span(lo, hi, level);
    lemma_pow2_pos(level);
    lemma_ceil_div(lo, pow2(level) as int);
    let e = (pp - 1) as nat;
    let big = pow2(e) as int;
    let p = pow2(pp) as int;
    lemma_pow2_pos(e);
    lemma_pow2_unfold(pp);
    assert(p == 2 * big);
    assert(whole.lo / 2 <= t && 2 * t < whole.hi);
    lemma_div_denominator(2 * t, 2, big);
    lemma_div_denominator(whole.lo, 2, big);
    assert(t / big == (2 * t) / p);
    assert(whole.lo / p == (whole.lo / 2) / big);
    lemma_div_is_ordered(whole.lo / 2, t, big);
    lemma_fundamental_div_mod(2 * t, p);
    lemma_mod_bound(2 * t, p);
    lemma_ceil_div(whole.hi, p);
    let q = (2 * t) / p;
    let b = ceil_div(whole.hi, p);
    assert(q < b) by (nonlinear_arith)
        requires
            p * q <= 2 * t,
            2 * t < whole.hi,
            whole.hi <= p * b,
            p > 0,
    ;
}

/// One axis of a band: its span, the extent of a code-block, how many of them a
/// precinct's group spans, and the group grid.
pub struct AxisGrid {
    pub span: Span,
    pub cell: int,
    pub per_group: int,
    pub group: int,
    pub groups: int,
}

impl AxisGrid {
    /// Every point of the span lies in one of the groups.
    pub open spec fn wf(&self) -> bool {
        &&& self.cell > 0
        &&& self.per_group > 0
        &&& 0 <= self.span.lo
        &&& forall|t: int|
            self.span.lo <= t < self.span.hi ==> 0 <= #[trigger] (t / (self.cell * self.per_group))
                - self.group < self.groups
    }

    /// Group `i`, clipped to the span.
    pub open spec fn part(&self, i: int) -> Span {
        clip(self.span, self.group + i, self.cell * self.per_group)
    }
}

/// Entry `j` of group `i` is cell `n` of the axis.
pub open spec fn axis_deals(a: AxisGrid, i: int, j: int, n: int) -> bool {
    &&& 0 <= i < a.groups
    &&& 0 <= j < cells(a.part(i), a.cell)
    &&& first_cell(a.part(i), a.cell) + j == first_cell(a.span, a.cell) + n
}

/// Every cell of an axis is an entry of one group.
proof fn lemma_axis_dealt(a: AxisGrid, n: int) -> (r: (int, int))
    requires
        a.wf(),
        0 <= n < cells(a.span, a.cell),
    ensures
        axis_deals(a, r.0, r.1, n),
        forall|i: int, j: int| #[trigger] axis_deals(a, i, j, n) ==> i == r.0 && j == r.1,
{
    let c = first_cell(a.span, a.cell) + n;
    lemma_cell_meets(a.span, a.cell, n);
    let own = clip(a.span, c, a.cell);
    let t = own.lo;
    lemma_cell_of_point(a.span, a.cell, t);
    assert(t / a.cell == c);
    lemma_div_denominator(t, a.cell, a.per_group);
    let i = c / a.per_group - a.group;
    assert(0 <= t / (a.cell * a.per_group) - a.group < a.groups);
    lemma_group_cells(a.span, a.cell, a.per_group, a.group + i, c);
    let j = c - first_cell(a.part(i), a.cell);
    assert forall|i2: int, j2: int| #[trigger] axis_deals(a, i2, j2, n) implies i2 == i && j2
        == j by {
        lemma_group_cells(a.span, a.cell, a.per_group, a.group + i2, c);
    }
    (i, j)
}

/// The entries of a group are cells of the axis.
proof fn lemma_axis_entry(a: AxisGrid, i: int, j: int) -> (n: int)
    requires
        a.wf(),
        0 <= i < a.groups,
        0 <= j < cells(a.part(i), a.cell),
    ensures
        0 <= n < cells(a.span, a.cell),
        axis_deals(a, i, j, n),
{
    super::geometry::lemma_cells_within(a.part(i), a.span, a.cell);
    first_cell(a.part(i), a.cell) + j - first_cell(a.span, a.cell)
}

/// A band's horizontal grid.
pub open spec fn columns_of(tc: Rect, coding: CodingView, r: nat, i: int) -> AxisGrid {
    let g = groups_of(tc, coding, r);
    let xcb = block_exponent(coding.code_block_width, g.x_exp);
    AxisGrid {
        span: band_x(tc, coding, r, i),
        cell: pow2(xcb) as int,
        per_group: pow2((g.x_exp - xcb) as nat) as int,
        group: g.x,
        groups: g.wide,
    }
}

/// A band's vertical grid.
pub open spec fn rows_of(tc: Rect, coding: CodingView, r: nat, i: int) -> AxisGrid {
    let g = groups_of(tc, coding, r);
    let ycb = block_exponent(coding.code_block_height, g.y_exp);
    AxisGrid {
        span: band_y(tc, coding, r, i),
        cell: pow2(ycb) as int,
        per_group: pow2((g.y_exp - ycb) as nat) as int,
        group: g.y,
        groups: g.high,
    }
}

/// A band's axes are dealt out in groups that cover them, and a group's extent is
/// a whole number of code-blocks.
pub proof fn lemma_grids(tc: Rect, coding: CodingView, r: nat, i: int)
    requires
        admitted(tc),
        precincts_legal(coding),
        r <= coding.decomposition_levels <= 32,
        coding.code_block_width + coding.code_block_height <= 8,
    ensures
        columns_of(tc, coding, r, i).wf(),
        rows_of(tc, coding, r, i).wf(),
        ({
            let g = groups_of(tc, coding, r);
            let (a, b) = (columns_of(tc, coding, r, i), rows_of(tc, coding, r, i));
            a.cell * a.per_group == pow2(g.x_exp) && b.cell * b.per_group == pow2(g.y_exp)
        }),
{
    let g = groups_of(tc, coding, r);
    let (a, b) = (columns_of(tc, coding, r, i), rows_of(tc, coding, r, i));
    let xcb = block_exponent(coding.code_block_width, g.x_exp);
    let ycb = block_exponent(coding.code_block_height, g.y_exp);
    let level = (coding.decomposition_levels - r) as nat;
    let (ppx, ppy) = coding.precinct(r as int);
    lemma_precinct_legal(coding, r as int);
    lemma_band_layout(tc, coding, r, i);
    lemma_pow2_pos(xcb);
    lemma_pow2_pos(ycb);
    lemma_pow2_pos((g.x_exp - xcb) as nat);
    lemma_pow2_pos((g.y_exp - ycb) as nat);
    lemma_pow2_adds(xcb, (g.x_exp - xcb) as nat);
    lemma_pow2_adds(ycb, (g.y_exp - ycb) as nat);
    lemma_pow2_pos(g.x_exp);
    lemma_pow2_pos(g.y_exp);
    super::geometry::lemma_band_spans(tc, coding, r, i);
    assert forall|t: int| a.span.lo <= t < a.span.hi implies 0 <= #[trigger] (t / (a.cell
        * a.per_group)) - a.group < a.groups by {
        if r == 0 {
            lemma_cell_of_point(a.span, pow2(ppx) as int, t);
        } else {
            lemma_groups_cover(tc.x0 as int, tc.x1 as int, level, i != 1, ppx, t);
        }
    }
    assert forall|t: int| b.span.lo <= t < b.span.hi implies 0 <= #[trigger] (t / (b.cell
        * b.per_group)) - b.group < b.groups by {
        if r == 0 {
            lemma_cell_of_point(b.span, pow2(ppy) as int, t);
        } else {
            lemma_groups_cover(tc.y0 as int, tc.y1 as int, level, i != 0, ppy, t);
        }
    }
}

/// What a band's precincts hold, axis by axis: entry `j` of precinct `q` is the
/// block in the row and the column that its entry of each axis names.
#[verifier::rlimit(30)]
pub proof fn lemma_entry_position(tc: Rect, coding: CodingView, r: nat, i: int, q: int, j: int)
    requires
        admitted(tc),
        precincts_legal(coding),
        r <= coding.decomposition_levels <= 32,
        coding.code_block_width + coding.code_block_height <= 8,
        0 <= q < band_of(tc, coding, r, i).precincts.len(),
        0 <= j < band_of(tc, coding, r, i).precincts[q].blocks.len(),
    ensures
        ({
            let b = band_of(tc, coding, r, i);
            let (cs, rs) = (columns_of(tc, coding, r, i), rows_of(tc, coding, r, i));
            let k = b.precincts[q].blocks[j] as int;
            let cols = cells(cs.span, cs.cell);
            let wide = cells(cs.part(q % cs.groups), cs.cell);
            &&& 0 <= k < b.blocks.len()
            &&& 0 < wide
            &&& 0 < cols
            &&& 0 < cs.groups
            &&& axis_deals(cs, q % cs.groups, j % wide, k % cols)
            &&& axis_deals(rs, q / cs.groups, j / wide, k / cols)
        }),
{
    let b = band_of(tc, coding, r, i);
    let (cs, rs) = (columns_of(tc, coding, r, i), rows_of(tc, coding, r, i));
    let g = groups_of(tc, coding, r);
    lemma_grids(tc, coding, r, i);
    lemma_band_layout(tc, coding, r, i);
    lemma_bounds(cs, rs, b);
    super::geometry::lemma_precincts_in(tc, coding, r);
    let (cols, rows) = (cells(cs.span, cs.cell), cells(rs.span, rs.cell));
    lemma_grid_position(q, g.wide, g.high);
    let px = cs.part(q % g.wide);
    let py = rs.part(q / g.wide);
    let (wide, high) = (cells(px, cs.cell), cells(py, rs.cell));
    assert(b.precincts[q] == precinct_spec(cs.span, rs.span, cs.cell, rs.cell, g, q));
    lemma_part_cells(cs, q % g.wide);
    lemma_part_cells(rs, q / g.wide);
    assert(wide * high >= 0) by (nonlinear_arith)
        requires
            wide >= 0,
            high >= 0,
    ;
    lemma_grid_position(j, wide, high);
    let x = lemma_axis_entry(cs, q % g.wide, j % wide);
    let y = lemma_axis_entry(rs, q / g.wide, j / wide);
    lemma_index_bound(x, y, cols, rows);
    let at = y * cols + x;
    assert(at == (first_cell(py, rs.cell) + j / wide - first_cell(rs.span, rs.cell)) * cells(
        cs.span,
        cs.cell,
    ) + (first_cell(px, cs.cell) + j % wide - first_cell(cs.span, cs.cell)));
    assert(b.blocks.len() == cols * rows);
    assert(b.precincts[q].blocks[j] == at);
    assert(cols * y == y * cols) by (nonlinear_arith);
    lemma_fundamental_div_mod_converse(at, cols, y, x);
}

/// A precinct's blocks form a rectangle: as many columns and rows as its part of each
/// axis has.
pub proof fn lemma_precinct_shape(tc: Rect, coding: CodingView, r: nat, i: int, q: int)
    requires
        admitted(tc),
        precincts_legal(coding),
        r <= coding.decomposition_levels <= 32,
        coding.code_block_width + coding.code_block_height <= 8,
        0 <= q < band_of(tc, coding, r, i).precincts.len(),
    ensures
        ({
            let p = band_of(tc, coding, r, i).precincts[q];
            let (cs, rs) = (columns_of(tc, coding, r, i), rows_of(tc, coding, r, i));
            &&& p.cols == cells(cs.part(q % cs.groups), cs.cell)
            &&& p.rows == cells(rs.part(q / cs.groups), rs.cell)
            &&& p.blocks.len() == p.cols * p.rows
        }),
{
    let b = band_of(tc, coding, r, i);
    let (cs, rs) = (columns_of(tc, coding, r, i), rows_of(tc, coding, r, i));
    let g = groups_of(tc, coding, r);
    lemma_grids(tc, coding, r, i);
    lemma_band_layout(tc, coding, r, i);
    assert(b.precincts[q] == precinct_spec(cs.span, rs.span, cs.cell, rs.cell, g, q));
    lemma_part_cells(cs, q % g.wide);
    lemma_part_cells(rs, q / g.wide);
    let (wide, high) = (cells(cs.part(q % g.wide), cs.cell), cells(rs.part(q / g.wide), rs.cell));
    assert(wide * high >= 0) by (nonlinear_arith)
        requires
            wide >= 0,
            high >= 0,
    ;
}

/// A part of an axis meets no negative number of cells.
proof fn lemma_part_cells(a: AxisGrid, i: int)
    requires
        a.wf(),
    ensures
        cells(a.part(i), a.cell) >= 0,
{
    let part = a.part(i);
    if part.lo < part.hi {
        super::geometry::lemma_cells_bound(part, a.cell);
    }
}

/// A band has no more blocks than samples.
proof fn lemma_bounds(cs: AxisGrid, rs: AxisGrid, b: BandView)
    requires
        cs.wf(),
        rs.wf(),
        b.width == cs.span.hi - cs.span.lo,
        b.height == rs.span.hi - rs.span.lo,
        b.width * b.height <= 0x400_0000,
    ensures
        0 <= cells(cs.span, cs.cell),
        0 <= cells(rs.span, rs.cell),
        0 <= cells(cs.span, cs.cell) * cells(rs.span, rs.cell) <= 0x400_0000,
{
    super::geometry::lemma_cells_bound(cs.span, cs.cell);
    super::geometry::lemma_cells_bound(rs.span, rs.cell);
    let (x, y) = (cells(cs.span, cs.cell), cells(rs.span, rs.cell));
    assert(0 <= x * y <= b.width * b.height) by (nonlinear_arith)
        requires
            0 <= x <= b.width,
            0 <= y <= b.height,
    ;
}

/// The precincts of a resolution deal out a band's code-blocks: every block is an
/// entry of exactly one precinct, once.
#[verifier::rlimit(30)]
pub proof fn lemma_precincts_deal_blocks(tc: Rect, coding: CodingView, r: nat, i: int, k: int)
    requires
        admitted(tc),
        precincts_legal(coding),
        r <= coding.decomposition_levels <= 32,
        coding.code_block_width + coding.code_block_height <= 8,
        0 <= k < band_of(tc, coding, r, i).blocks.len(),
    ensures
        exists|q: int, j: int| deals(band_of(tc, coding, r, i), q, j, k),
        forall|q1: int, j1: int, q2: int, j2: int| #[trigger]
            deals(band_of(tc, coding, r, i), q1, j1, k) && #[trigger] deals(
                band_of(tc, coding, r, i),
                q2,
                j2,
                k,
            ) ==> q1 == q2 && j1 == j2,
{
    let b = band_of(tc, coding, r, i);
    let (cs, rs) = (columns_of(tc, coding, r, i), rows_of(tc, coding, r, i));
    let g = groups_of(tc, coding, r);
    lemma_grids(tc, coding, r, i);
    lemma_band_layout(tc, coding, r, i);
    lemma_bounds(cs, rs, b);
    let (cols, rows) = (cells(cs.span, cs.cell), cells(rs.span, rs.cell));
    lemma_grid_position(k, cols, rows);
    let (qx, jx) = lemma_axis_dealt(cs, k % cols);
    let (qy, jy) = lemma_axis_dealt(rs, k / cols);
    let (px, py) = (cs.part(qx), rs.part(qy));
    let (wide, high) = (cells(px, cs.cell), cells(py, rs.cell));
    let q = qy * g.wide + qx;
    let j = jy * wide + jx;
    lemma_index_bound(qx, qy, g.wide, g.high);
    lemma_index_bound(jx, jy, wide, high);
    assert(g.wide * qy == qy * g.wide && wide * jy == jy * wide) by (nonlinear_arith);
    lemma_fundamental_div_mod_converse(q, g.wide, qy, qx);
    lemma_fundamental_div_mod_converse(j, wide, jy, jx);
    assert(b.precincts[q] == precinct_spec(cs.span, rs.span, cs.cell, rs.cell, g, q));
    assert(b.precincts[q].blocks[j] == k);
    assert(deals(b, q, j, k));
    assert forall|q1: int, j1: int, q2: int, j2: int| #[trigger]
        deals(b, q1, j1, k) && #[trigger] deals(b, q2, j2, k) implies q1 == q2 && j1 == j2 by {
        lemma_entry_position(tc, coding, r, i, q1, j1);
        lemma_entry_position(tc, coding, r, i, q2, j2);
        lemma_grid_position(q1, g.wide, g.high);
        lemma_grid_position(q2, g.wide, g.high);
        lemma_fundamental_div_mod(j1, wide);
        lemma_fundamental_div_mod(j2, wide);
    }
}

} // verus!
