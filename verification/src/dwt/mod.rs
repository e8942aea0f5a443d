//! The inverse wavelet transform (ISO/IEC 15444-1 Annex F).
//!
//! Every resolution merges the running low-pass band with its three detail bands:
//! the four are interleaved by the parity of the resolution's origin, then a 1-D
//! synthesis runs across every row and down every column. A sample is low-pass
//! when its coordinate on the tile-component grid is even, so a row that starts at
//! an odd coordinate starts on a high-pass sample; the starting parity is `cas`.
//!
//! The reversible 5/3 synthesis runs here, in exact integers that are held to
//! `i32`. [`interleave`] serves either wavelet.

pub mod analysis;

use crate::codestream::{HeaderView, MainHeader};
use crate::error::{fault, Error, ErrorKind, Fault, Result};
use crate::text::{no_coding, no_coding_text};
use crate::math::{lemma_index_bound, max_int};
use crate::mct::{saturate, saturated};
use crate::pipeline::{
    detail_views, Band, Bands, CoeffsView, DetailBands, DetailView, GridView, Samples, SamplesView,
    Step, SubbandCoeffs,
};
use crate::quant::{steps_spec, subband_steps};
use crate::tier1::{halve, lemma_row_column};
use vstd::prelude::*;
use vstd::string::*;

verus! {

/// Whole-sample symmetric extension: `i` reflected about the ends of `[0, n)`
/// until it lies inside. One reflection reaches every index that lifting asks for.
pub open spec fn reflected(i: int, n: int) -> int {
    if n <= 1 {
        0
    } else {
        let period = 2 * (n - 1);
        let k = i % period;
        if k >= n {
            period - k
        } else {
            k
        }
    }
}

/// Map an index, which may lie outside the signal, onto `0..n`, reflecting about
/// the edge samples without repeating them.
pub fn reflect(i: isize, n: usize) -> (k: usize)
    requires
        0 < n,
    ensures
        k == reflected(i as int, n as int),
        k < n,
{
    if n == 1 {
        return 0;
    }
    let period: u128 = 2 * (n as u128 - 1);
    let k: u128 = if i >= 0 {
        i as u128 % period
    } else {
        let j: u128 = (-(i + 1)) as u128;
        proof {
            lemma_negative_mod(j as int, period as int);
        }
        period - 1 - j % period
    };
    if k >= n as u128 {
        (period - k) as usize
    } else {
        k as usize
    }
}

/// The neighbours of sample `i`, reflected at the edges.
fn neighbours(i: usize, n: usize) -> (r: (usize, usize))
    requires
        2 <= n,
        i < n,
    ensures
        r.0 == reflected(i - 1, n as int),
        r.1 == reflected(i + 1, n as int),
        r.0 < n,
        r.1 < n,
        r.0 % 2 != i % 2,
        r.1 % 2 != i % 2,
{
    proof {
        lemma_reflect_neighbours(i as int, n as int);
    }
    (
        if i == 0 {
            1
        } else {
            i - 1
        },
        if i == n - 1 {
            n - 2
        } else {
            i + 1
        },
    )
}

/// The remainder of the negative number `-1 - j`.
proof fn lemma_negative_mod(j: int, p: int)
    requires
        j >= 0,
        p > 0,
    ensures
        (-1 - j) % p == p - 1 - j % p,
        0 <= j % p < p,
{
    let q = j / p;
    vstd::arithmetic::div_mod::lemma_fundamental_div_mod(j, p);
    vstd::arithmetic::div_mod::lemma_mod_bound(j, p);
    assert(-1 - j == (-q - 1) * p + (p - 1 - j % p)) by (nonlinear_arith)
        requires
            j == p * q + j % p,
    ;
    vstd::arithmetic::div_mod::lemma_fundamental_div_mod_converse(
        -1 - j,
        p,
        -q - 1,
        p - 1 - j % p,
    );
}

/// The neighbours that lifting reads, for a signal of two samples or more.
pub proof fn lemma_reflect_neighbours(i: int, n: int)
    requires
        n >= 2,
        0 <= i < n,
    ensures
        reflected(i - 1, n) == if i == 0 {
            1
        } else {
            i - 1
        },
        reflected(i + 1, n) == if i == n - 1 {
            n - 2
        } else {
            i + 1
        },
{
    let period = 2 * (n - 1);
    if i == 0 {
        vstd::arithmetic::div_mod::lemma_fundamental_div_mod_converse(-1, period, -1, period - 1);
    } else {
        vstd::arithmetic::div_mod::lemma_small_mod((i - 1) as nat, period as nat);
    }
    if i + 1 < period {
        vstd::arithmetic::div_mod::lemma_small_mod((i + 1) as nat, period as nat);
    } else {
        assert(n == 2 && i == 1);
        vstd::arithmetic::div_mod::lemma_mod_self_0(2);
    }
}

/// The update step undone: every low-pass sample gives back a quarter of its
/// neighbours, rounded.
pub open spec fn undo_update(s: Seq<i32>, cas: int) -> Seq<i32> {
    let n = s.len() as int;
    Seq::new(
        s.len(),
        |i: int|
            if i % 2 == cas {
                saturated(s[i] - (s[reflected(i - 1, n)] + s[reflected(i + 1, n)] + 2) / 4) as i32
            } else {
                s[i]
            },
    )
}

/// The predict step undone: every high-pass sample takes the mean of its
/// neighbours, rounded down.
pub open spec fn undo_predict(s: Seq<i32>, cas: int) -> Seq<i32> {
    let n = s.len() as int;
    Seq::new(
        s.len(),
        |i: int|
            if i % 2 != cas {
                saturated(s[i] + (s[reflected(i - 1, n)] + s[reflected(i + 1, n)]) / 2) as i32
            } else {
                s[i]
            },
    )
}

/// The inverse 5/3 transform of one signal. A lone low-pass sample passes through;
/// a lone high-pass sample is halved.
pub open spec fn inverse_5_3_spec(s: Seq<i32>, cas: int) -> Seq<i32> {
    if s.len() == 0 {
        s
    } else if s.len() == 1 {
        if cas == 1 {
            seq![halve(s[0] as int) as i32]
        } else {
            s
        }
    } else {
        undo_predict(undo_update(s, cas), cas)
    }
}

/// How many of `n` samples have the parity `cas`.
fn count_of(n: usize, cas: usize) -> (m: usize)
    requires
        cas <= 1,
        2 <= n,
    ensures
        m == low_count(n as int, cas as int),
{
    (n - cas) / 2 + (n - cas) % 2
}

/// One-dimensional inverse 5/3 lifting in place.
pub fn inverse_5_3(signal: &mut Vec<i32>, cas: usize)
    requires
        cas <= 1,
    ensures
        final(signal)@ == inverse_5_3_spec(old(signal)@, cas as int),
        final(signal)@.len() == old(signal)@.len(),
{
    let n: usize = signal.len();
    let ghost s = signal@;
    if n <= 1 {
        if n == 1 && cas == 1 {
            let q: i32 = signal[0];
            let h: i32 = crate::tier1::half_of(q);
            signal.set(0, h);
            assert(signal@ =~= inverse_5_3_spec(s, cas as int));
        }
        return;
    }
    let ghost t = undo_update(s, cas as int);
    let lows: usize = count_of(n, cas);
    let mut k: usize = 0;
    while k < lows
        invariant
            n == s.len(),
            2 <= n,
            cas <= 1,
            k <= lows == low_count(n as int, cas as int),
            signal@.len() == n,
            t == undo_update(s, cas as int),
            forall|j: int|
                0 <= j < n ==> #[trigger] signal@[j] == (if j < 2 * k + cas {
                    t[j]
                } else {
                    s[j]
                }),
        decreases lows - k,
    {
        let i: usize = 2 * k + cas;
        let (before, behind): (usize, usize) = neighbours(i, n);
        let left: i64 = signal[before] as i64;
        let right: i64 = signal[behind] as i64;
        let v: i32 = saturate(signal[i] as i64 - floor_quarter(left + right + 2));
        signal.set(i, v);
        k = k + 1;
    }
    let ghost u = undo_predict(t, cas as int);
    assert(signal@ =~= t);
    let highs: usize = count_of(n, 1 - cas);
    let mut k: usize = 0;
    while k < highs
        invariant
            n == t.len(),
            2 <= n,
            cas <= 1,
            k <= highs == low_count(n as int, 1 - cas),
            signal@.len() == n,
            u == undo_predict(t, cas as int),
            forall|j: int|
                0 <= j < n ==> #[trigger] signal@[j] == (if j < 2 * k + (1 - cas) {
                    u[j]
                } else {
                    t[j]
                }),
        decreases highs - k,
    {
        let i: usize = 2 * k + (1 - cas);
        let (before, behind): (usize, usize) = neighbours(i, n);
        let left: i64 = signal[before] as i64;
        let right: i64 = signal[behind] as i64;
        let v: i32 = saturate(signal[i] as i64 + crate::math::floor_div_i64(left + right, 2));
        signal.set(i, v);
        k = k + 1;
    }
    assert(signal@ =~= u);
}

/// A quarter of `v`, rounded down.
fn floor_quarter(v: i64) -> (q: i64)
    requires
        v > i64::MIN,
    ensures
        q == v as int / 4,
        -0x2000_0000_0000_0001 <= q <= 0x2000_0000_0000_0000,
{
    crate::math::floor_div_i64(v, 4)
}

/// The parity of a coordinate.
pub open spec fn parity(v: int) -> int {
    v % 2
}

/// How many of `n` interleaved samples that start at parity `cas` are low-pass.
pub open spec fn low_count(n: int, cas: int) -> int {
    (n + 1 - cas) / 2
}

/// The four bands of one resolution tile it: each has its data, they agree on
/// their counts, and the counts are those of a resolution at their joint origin.
pub open spec fn level_fits<T>(ll: GridView<T>, d: DetailView<T>) -> bool {
    let w = ll.width + d.hl.width;
    let h = ll.height + d.lh.height;
    &&& ll.wf() && d.hl.wf() && d.lh.wf() && d.hh.wf()
    &&& d.hl.height == ll.height
    &&& d.lh.width == ll.width
    &&& d.hh.width == d.hl.width
    &&& d.hh.height == d.lh.height
    &&& ll.origin.0 + d.hl.origin.0 <= u32::MAX
    &&& ll.origin.1 + d.lh.origin.1 <= u32::MAX
    &&& ll.width == low_count(w as int, parity(ll.origin.0 + d.hl.origin.0))
    &&& ll.height == low_count(h as int, parity(ll.origin.1 + d.lh.origin.1))
    &&& w <= usize::MAX
    &&& h <= usize::MAX
    &&& w * h <= usize::MAX
}

/// Where a resolution starts: for one that spans from `u0`, the low-pass band
/// starts at `ceil(u0 / 2)` and the high-pass band at `floor(u0 / 2)`.
pub open spec fn level_origin<T>(ll: GridView<T>, d: DetailView<T>) -> (u32, u32) {
    ((ll.origin.0 + d.hl.origin.0) as u32, (ll.origin.1 + d.lh.origin.1) as u32)
}

/// The band sample that lands on column `x`, row `y` of the interleaved grid:
/// `ll` on low-pass rows and columns, `hl` on high-pass columns, `lh` on
/// high-pass rows, `hh` where both are high-pass.
pub open spec fn interleaved_at<T>(ll: GridView<T>, d: DetailView<T>, x: int, y: int) -> T {
    let low_x = x % 2 == parity(ll.origin.0 + d.hl.origin.0);
    let low_y = y % 2 == parity(ll.origin.1 + d.lh.origin.1);
    if low_x && low_y {
        ll.at(x / 2, y / 2)
    } else if low_y {
        d.hl.at(x / 2, y / 2)
    } else if low_x {
        d.lh.at(x / 2, y / 2)
    } else {
        d.hh.at(x / 2, y / 2)
    }
}

/// The interleaved grid of one resolution.
pub open spec fn interleaved<T>(ll: GridView<T>, d: DetailView<T>) -> GridView<T> {
    let w = ll.width + d.hl.width;
    let h = ll.height + d.lh.height;
    GridView {
        origin: level_origin(ll, d),
        width: w,
        height: h,
        data: Seq::new(w * h, |k: int| interleaved_at(ll, d, k % (w as int), k / (w as int))),
    }
}

/// Low-pass and high-pass positions fall inside their bands.
proof fn lemma_half_in_band(x: int, low: int, high: int, cas: int)
    requires
        0 <= x < low + high,
        cas == 0 || cas == 1,
        low == low_count(low + high, cas),
    ensures
        x % 2 == cas ==> 0 <= x / 2 < low,
        x % 2 != cas ==> 0 <= x / 2 < high,
{
}

/// The sample of one band at `(x, y)`.
fn band_at<T: Copy>(band: &Band<T>, x: usize, y: usize) -> (v: T)
    requires
        band@.wf(),
        x < band.width,
        y < band.height,
    ensures
        v == band@.at(x as int, y as int),
{
    proof {
        lemma_index_bound(x as int, y as int, band.width as int, band.height as int);
        assert(band.data@.len() == band.data.len());
    }
    band.data[y * band.width + x]
}

/// Interleave the four bands of one resolution by the parity of its origin.
pub fn interleave<T: Copy>(ll: &Band<T>, detail: &DetailBands<T>) -> (r: Band<T>)
    requires
        level_fits(ll@, detail@),
    ensures
        r@ == interleaved(ll@, detail@),
        r@.wf(),
{
    let u0: u32 = ll.origin.0 + detail.hl.origin.0;
    let v0: u32 = ll.origin.1 + detail.lh.origin.1;
    let cas_x: usize = (u0 % 2) as usize;
    let cas_y: usize = (v0 % 2) as usize;
    let width: usize = ll.width + detail.hl.width;
    let height: usize = ll.height + detail.lh.height;
    let ghost goal = interleaved(ll@, detail@);
    let mut data: Vec<T> = Vec::new();
    let mut y: usize = 0;
    while y < height
        invariant
            level_fits(ll@, detail@),
            goal == interleaved(ll@, detail@),
            cas_x == parity(ll.origin.0 + detail.hl.origin.0),
            cas_y == parity(ll.origin.1 + detail.lh.origin.1),
            width == ll.width + detail.hl.width,
            height == ll.height + detail.lh.height,
            y <= height,
            data@.len() == y * width,
            forall|k: int| 0 <= k < data@.len() ==> #[trigger] data@[k] == goal.data[k],
        decreases height - y,
    {
        let mut x: usize = 0;
        while x < width
            invariant
                level_fits(ll@, detail@),
                goal == interleaved(ll@, detail@),
                cas_x == parity(ll.origin.0 + detail.hl.origin.0),
                cas_y == parity(ll.origin.1 + detail.lh.origin.1),
                width == ll.width + detail.hl.width,
                height == ll.height + detail.lh.height,
                y < height,
                x <= width,
                data@.len() == y * width + x,
                forall|k: int| 0 <= k < data@.len() ==> #[trigger] data@[k] == goal.data[k],
            decreases width - x,
        {
            proof {
                lemma_half_in_band(
                    x as int,
                    ll.width as int,
                    detail.hl.width as int,
                    cas_x as int,
                );
                lemma_half_in_band(
                    y as int,
                    ll.height as int,
                    detail.lh.height as int,
                    cas_y as int,
                );
                lemma_row_column(x as int, y as int, width as int);
                lemma_index_bound(x as int, y as int, width as int, height as int);
            }
            let low_x: bool = x % 2 == cas_x;
            let low_y: bool = y % 2 == cas_y;
            let v: T = if low_x && low_y {
                band_at(ll, x / 2, y / 2)
            } else if low_y {
                band_at(&detail.hl, x / 2, y / 2)
            } else if low_x {
                band_at(&detail.lh, x / 2, y / 2)
            } else {
                band_at(&detail.hh, x / 2, y / 2)
            };
            data.push(v);
            x = x + 1;
        }
        assert((y + 1) * width == y * width + width) by (nonlinear_arith);
        y = y + 1;
    }
    assert(height * width == width * height) by (nonlinear_arith);
    assert(data@ =~= goal.data);
    Band { origin: (u0, v0), width, height, data }
}

/// One row of a row-major grid.
pub open spec fn row_of<T>(data: Seq<T>, w: int, y: int) -> Seq<T> {
    Seq::new(w as nat, |x: int| data[y * w + x])
}

/// One column of a row-major grid.
pub open spec fn column_of<T>(data: Seq<T>, w: int, h: int, x: int) -> Seq<T> {
    Seq::new(h as nat, |y: int| data[y * w + x])
}

/// The inverse transform of every row.
pub open spec fn rows_done(data: Seq<i32>, w: int, cas: int) -> Seq<i32> {
    Seq::new(data.len(), |k: int| inverse_5_3_spec(row_of(data, w, k / w), cas)[k % w])
}

/// The inverse transform of every column.
pub open spec fn columns_done(data: Seq<i32>, w: int, h: int, cas: int) -> Seq<i32> {
    Seq::new(data.len(), |k: int| inverse_5_3_spec(column_of(data, w, h, k % w), cas)[k / w])
}

/// One resolution merged: interleaved, then rows, then columns. Lifting rounds,
/// so the order matters.
pub open spec fn merged(ll: GridView<i32>, d: DetailView<i32>) -> GridView<i32> {
    let g = interleaved(ll, d);
    let across = rows_done(g.data, g.width as int, parity(g.origin.0 as int));
    GridView {
        data: columns_done(
            across,
            g.width as int,
            g.height as int,
            parity(g.origin.1 as int),
        ),
        ..g
    }
}

/// The pyramid from level `i` on, merged onto `ll`.
pub open spec fn merged_from(
    ll: GridView<i32>,
    levels: Seq<DetailView<i32>>,
    i: int,
) -> GridView<i32>
    decreases max_int(0, levels.len() - i),
{
    if i < 0 || i >= levels.len() {
        ll
    } else {
        merged_from(merged(ll, levels[i]), levels, i + 1)
    }
}

/// Every level fits the band that the levels below it merge into.
pub open spec fn pyramid_fits(
    ll: GridView<i32>,
    levels: Seq<DetailView<i32>>,
    i: int,
) -> bool
    decreases max_int(0, levels.len() - i),
{
    if i < 0 || i >= levels.len() {
        true
    } else {
        level_fits(ll, levels[i]) && pyramid_fits(merged(ll, levels[i]), levels, i + 1)
    }
}

/// Transform every row of a grid in place.
fn run_rows(data: &mut Vec<i32>, w: usize, h: usize, cas: usize)
    requires
        old(data)@.len() == w * h,
        cas <= 1,
    ensures
        final(data)@ == rows_done(old(data)@, w as int, cas as int),
{
    let ghost before = data@;
    let ghost goal = rows_done(before, w as int, cas as int);
    let mut y: usize = 0;
    while y < h
        invariant
            before.len() == w * h,
            data@.len() == data.len() == w * h,
            goal == rows_done(before, w as int, cas as int),
            cas <= 1,
            y <= h,
            forall|k: int|
                0 <= k < data@.len() ==> #[trigger] data@[k] == (if k < y * w {
                    goal[k]
                } else {
                    before[k]
                }),
        decreases h - y,
    {
        let mut row: Vec<i32> = Vec::new();
        let mut x: usize = 0;
        proof {
            assert(y * w + w <= w * h) by (nonlinear_arith)
                requires
                    y < h,
            ;
            assert((y + 1) * w == y * w + w) by (nonlinear_arith);
            assert(0 <= y * w) by (nonlinear_arith);
        }
        let start: usize = y * w;
        while x < w
            invariant
                data@.len() == data.len() == w * h,
                start == y * w,
                start + w <= data@.len(),
                x <= w,
                row@.len() == x,
                forall|i: int| 0 <= i < x ==> #[trigger] row@[i] == data@[start + i],
            decreases w - x,
        {
            row.push(data[start + x]);
            x = x + 1;
        }
        assert(row@ =~= row_of(before, w as int, y as int)) by {
            assert forall|i: int| 0 <= i < w implies #[trigger] row@[i] == before[y * w + i] by {
                assert(data@[start + i] == before[start + i]);
            }
        }
        inverse_5_3(&mut row, cas);
        let ghost done = row@;
        let mut x: usize = 0;
        while x < w
            invariant
                before.len() == w * h,
                data@.len() == data.len() == w * h,
                start == y * w,
                start + w <= data@.len(),
                x <= w,
                row@ == done,
                done.len() == w,
                done == inverse_5_3_spec(row_of(before, w as int, y as int), cas as int),
                goal == rows_done(before, w as int, cas as int),
                forall|k: int|
                    0 <= k < data@.len() ==> #[trigger] data@[k] == (if k < start + x {
                        goal[k]
                    } else {
                        before[k]
                    }),
            decreases w - x,
        {
            proof {
                lemma_row_column(x as int, y as int, w as int);
            }
            data.set(start + x, row[x]);
            x = x + 1;
        }
        y = y + 1;
    }
    assert(h * w == w * h) by (nonlinear_arith);
    assert(data@ =~= goal);
}

/// Transform every column of a grid in place.
fn run_columns(data: &mut Vec<i32>, w: usize, h: usize, cas: usize)
    requires
        old(data)@.len() == w * h,
        cas <= 1,
    ensures
        final(data)@ == columns_done(old(data)@, w as int, h as int, cas as int),
{
    let ghost before = data@;
    let ghost goal = columns_done(before, w as int, h as int, cas as int);
    let mut x: usize = 0;
    while x < w
        invariant
            before.len() == w * h,
            data@.len() == data.len() == w * h,
            goal == columns_done(before, w as int, h as int, cas as int),
            cas <= 1,
            x <= w,
            forall|k: int|
                0 <= k < data@.len() ==> #[trigger] data@[k] == (if k % (w as int) < x {
                    goal[k]
                } else {
                    before[k]
                }),
        decreases w - x,
    {
        let mut column: Vec<i32> = Vec::new();
        let mut y: usize = 0;
        while y < h
            invariant
                data@.len() == data.len() == w * h,
                x < w,
                y <= h,
                column@.len() == y,
                forall|i: int| 0 <= i < y ==> #[trigger] column@[i] == data@[i * w + x],
            decreases h - y,
        {
            proof {
                lemma_index_bound(x as int, y as int, w as int, h as int);
            }
            column.push(data[y * w + x]);
            y = y + 1;
        }
        assert(column@ =~= column_of(before, w as int, h as int, x as int)) by {
            assert forall|i: int| 0 <= i < h implies #[trigger] column@[i] == before[i * w + x] by {
                lemma_index_bound(x as int, i, w as int, h as int);
                lemma_row_column(x as int, i, w as int);
                assert(data@[i * w + x] == before[i * w + x]);
            }
        }
        inverse_5_3(&mut column, cas);
        let ghost done = column@;
        let mut y: usize = 0;
        while y < h
            invariant
                before.len() == w * h,
                data@.len() == data.len() == w * h,
                x < w,
                y <= h,
                column@ == done,
                done.len() == h,
                done == inverse_5_3_spec(
                    column_of(before, w as int, h as int, x as int),
                    cas as int,
                ),
                goal == columns_done(before, w as int, h as int, cas as int),
                forall|k: int|
                    0 <= k < data@.len() ==> #[trigger] data@[k] == (if k % (w as int) < x || (k
                        % (w as int) == x && k / (w as int) < y) {
                        goal[k]
                    } else {
                        before[k]
                    }),
            decreases h - y,
        {
            let ghost current = data@;
            let ghost at = y * w + x;
            proof {
                lemma_index_bound(x as int, y as int, w as int, h as int);
                lemma_row_column(x as int, y as int, w as int);
            }
            data.set(y * w + x, column[y]);
            proof {
                assert forall|k: int| 0 <= k < data@.len() implies #[trigger] data@[k] == (if k % (
                w as int) < x || (k % (w as int) == x && k / (w as int) < y + 1) {
                    goal[k]
                } else {
                    before[k]
                }) by {
                    if k != at {
                        assert(data@[k] == current[k]);
                        vstd::arithmetic::div_mod::lemma_fundamental_div_mod(k, w as int);
                        assert((k / w as int) * w == w * (k / w as int)) by (nonlinear_arith);
                    }
                }
            }
            y = y + 1;
        }
        proof {
            assert forall|k: int| 0 <= k < data@.len() implies #[trigger] data@[k] == (if k % (
            w as int) < x + 1 {
                goal[k]
            } else {
                before[k]
            }) by {
                assert(k / w as int <= h - 1) by {
                    vstd::arithmetic::div_mod::lemma_fundamental_div_mod(k, w as int);
                    vstd::arithmetic::div_mod::lemma_mod_bound(k, w as int);
                    assert(k / w as int <= h - 1) by (nonlinear_arith)
                        requires
                            k == w * (k / w as int) + k % (w as int),
                            0 <= k % (w as int),
                            k < w * h,
                            w > 0,
                    ;
                }
            }
        }
        x = x + 1;
    }
    proof {
        assert forall|k: int| 0 <= k < data@.len() implies data@[k] == goal[k] by {
            if w > 0 {
                vstd::arithmetic::div_mod::lemma_mod_bound(k, w as int);
            } else {
                assert(w * h == 0) by (nonlinear_arith)
                    requires
                        w == 0,
                ;
            }
        }
    }
    assert(data@ =~= goal);
}

/// One resolution: interleave `ll` with the three detail bands, then transform
/// every row and every column. The result is the next finer low-pass band.
pub fn merge_level(ll: &Band<i32>, detail: &DetailBands<i32>) -> (r: Band<i32>)
    requires
        level_fits(ll@, detail@),
    ensures
        r@ == merged(ll@, detail@),
        r@.wf(),
{
    let mut grid: Band<i32> = interleave(ll, detail);
    let cas_x: usize = (grid.origin.0 % 2) as usize;
    let cas_y: usize = (grid.origin.1 % 2) as usize;
    run_rows(&mut grid.data, grid.width, grid.height, cas_x);
    run_columns(&mut grid.data, grid.width, grid.height, cas_y);
    grid
}

/// Merge the pyramid into the full-resolution band, coarsest level first.
pub fn reconstruct(bands: Bands<i32>) -> (r: Band<i32>)
    requires
        pyramid_fits(bands@.ll, bands@.levels, 0),
    ensures
        r@ == merged_from(bands@.ll, bands@.levels, 0),
{
    let ghost levels = bands@.levels;
    let ghost goal = merged_from(bands@.ll, levels, 0);
    let mut ll: Band<i32> = bands.ll;
    let mut i: usize = 0;
    while i < bands.levels.len()
        invariant
            levels == detail_views(bands.levels@),
            i <= levels.len(),
            pyramid_fits(ll@, levels, i as int),
            goal == merged_from(ll@, levels, i as int),
        decreases levels.len() - i,
    {
        ll = merge_level(&ll, &bands.levels[i]);
        i = i + 1;
    }
    ll
}

/// What [`inverse`] makes of one component's coefficients.
pub open spec fn inverse_spec(h: HeaderView, comp: int, c: CoeffsView) -> core::result::Result<
    SamplesView,
    Fault,
> {
    match c {
        CoeffsView::Reversible(b) => Ok(
            SamplesView::Reversible(merged_from(b.ll, b.levels, 0).data),
        ),
        CoeffsView::Irreversible(b) => if !(0 <= comp < h.components.len()) {
            Err(fault(ErrorKind::Inconsistent, no_coding_text(comp)))
        } else {
            match steps_spec(h, comp, h.components[comp].coding.decomposition_levels as nat) {
                Err(e) => Err(e),
                Ok(steps) => Ok(SamplesView::Irreversible(b, steps)),
            }
        },
    }
}

/// Inverse-transform one component. The reversible wavelet runs here; the
/// irreversible one's coefficients go on with the steps that scale them.
pub fn inverse(header: &MainHeader, comp: usize, coeffs: SubbandCoeffs) -> (r: Result<Samples>)
    requires
        coeffs@ matches CoeffsView::Reversible(b) ==> pyramid_fits(b.ll, b.levels, 0),
    ensures
        match r {
            Ok(s) => inverse_spec(header@, comp as int, coeffs@) == Ok::<SamplesView, Fault>(
                s@,
            ),
            Err(e) => inverse_spec(header@, comp as int, coeffs@) == Err::<SamplesView, Fault>(
                e@,
            ),
        },
{
    match coeffs {
        SubbandCoeffs::Reversible(bands) => Ok(Samples::Reversible(reconstruct(bands).data)),
        SubbandCoeffs::Irreversible(bands) => {
            if comp >= header.components.len() {
                return Err(Error::Inconsistent(no_coding(comp)));
            }
            assert(header@.components[comp as int] == header.components@[comp as int]@);
            let levels: u8 = header.components[comp].coding.decomposition_levels;
            let steps: Vec<Step> = subband_steps(header, comp, levels)?;
            Ok(Samples::Irreversible(bands, steps))
        },
    }
}

} // verus!
