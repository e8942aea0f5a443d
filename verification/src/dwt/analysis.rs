//! The forward 5/3 transform, as a specification, and the law of the lossless
//! path: the inverse transform gives back, bit for bit, any picture whose forward
//! transform stays inside `i32`.

use super::{
    column_of, columns_done, interleaved, inverse_5_3_spec, lemma_reflect_neighbours, level_fits,
    level_origin, low_count, merged, merged_from, parity, pyramid_fits, reflected, row_of,
    rows_done, undo_predict, undo_update,
};
use crate::math::lemma_index_bound;
use crate::pipeline::{BandsView, DetailView, GridView};
use crate::tier1::lemma_row_column;
use vstd::prelude::*;

verus! {

/// Whether a number fits `i32`.
pub open spec fn fits_i32(v: int) -> bool {
    i32::MIN <= v <= i32::MAX
}

/// A sample after the predict step: a high-pass sample loses the mean of its
/// neighbours, rounded down.
pub open spec fn predict_at(s: Seq<i32>, cas: int, i: int) -> int {
    let n = s.len() as int;
    if i % 2 != cas {
        s[i] - (s[reflected(i - 1, n)] + s[reflected(i + 1, n)]) / 2
    } else {
        s[i] as int
    }
}

/// The predict step.
pub open spec fn predicted(s: Seq<i32>, cas: int) -> Seq<i32> {
    Seq::new(s.len(), |i: int| predict_at(s, cas, i) as i32)
}

/// A sample after the update step: a low-pass sample gains a quarter of its
/// neighbours, rounded.
pub open spec fn update_at(s: Seq<i32>, cas: int, i: int) -> int {
    let n = s.len() as int;
    if i % 2 == cas {
        s[i] + (s[reflected(i - 1, n)] + s[reflected(i + 1, n)] + 2) / 4
    } else {
        s[i] as int
    }
}

/// The update step.
pub open spec fn updated(s: Seq<i32>, cas: int) -> Seq<i32> {
    Seq::new(s.len(), |i: int| update_at(s, cas, i) as i32)
}

/// The forward 5/3 transform of one signal.
pub open spec fn forward_5_3(s: Seq<i32>, cas: int) -> Seq<i32> {
    if s.len() == 0 {
        s
    } else if s.len() == 1 {
        if cas == 1 {
            seq![(2 * s[0]) as i32]
        } else {
            s
        }
    } else {
        updated(predicted(s, cas), cas)
    }
}

/// No value of the forward transform leaves `i32`.
pub open spec fn forward_fits(s: Seq<i32>, cas: int) -> bool {
    if s.len() <= 1 {
        s.len() == 1 && cas == 1 ==> fits_i32(2 * s[0])
    } else {
        &&& forall|i: int| 0 <= i < s.len() ==> fits_i32(#[trigger] predict_at(s, cas, i))
        &&& forall|i: int|
            0 <= i < s.len() ==> fits_i32(#[trigger] update_at(predicted(s, cas), cas, i))
    }
}

/// The update step, undone on one sample.
proof fn lemma_update_undone(d: Seq<i32>, cas: int, i: int)
    requires
        cas == 0 || cas == 1,
        d.len() >= 2,
        0 <= i < d.len(),
        forall|j: int| 0 <= j < d.len() ==> fits_i32(#[trigger] update_at(d, cas, j)),
    ensures
        undo_update(updated(d, cas), cas)[i] == d[i],
{
    let n = d.len() as int;
    let u = updated(d, cas);
    lemma_reflect_neighbours(i, n);
    let (l, r) = (reflected(i - 1, n), reflected(i + 1, n));
    assert(fits_i32(update_at(d, cas, i)));
    if i % 2 == cas {
        assert(l % 2 != cas && r % 2 != cas);
        assert(u[l] == d[l] && u[r] == d[r]);
        assert(u[i] == d[i] + (d[l] + d[r] + 2) / 4);
    }
}

/// The predict step, undone on one sample.
proof fn lemma_predict_undone(s: Seq<i32>, cas: int, i: int)
    requires
        cas == 0 || cas == 1,
        s.len() >= 2,
        0 <= i < s.len(),
        forall|j: int| 0 <= j < s.len() ==> fits_i32(#[trigger] predict_at(s, cas, j)),
    ensures
        undo_predict(predicted(s, cas), cas)[i] == s[i],
{
    let n = s.len() as int;
    let d = predicted(s, cas);
    lemma_reflect_neighbours(i, n);
    let (l, r) = (reflected(i - 1, n), reflected(i + 1, n));
    assert(fits_i32(predict_at(s, cas, i)));
    if i % 2 != cas {
        assert(l % 2 == cas && r % 2 == cas);
        assert(d[l] == s[l] && d[r] == s[r]);
        assert(d[i] == s[i] - (s[l] + s[r]) / 2);
    }
}

/// The inverse 5/3 transform undoes the forward one, whatever the length and the
/// parity of the first sample.
pub proof fn lemma_inverse_undoes_forward(s: Seq<i32>, cas: int)
    requires
        cas == 0 || cas == 1,
        forward_fits(s, cas),
    ensures
        inverse_5_3_spec(forward_5_3(s, cas), cas) == s,
        forward_5_3(s, cas).len() == s.len(),
{
    let n = s.len() as int;
    if n <= 1 {
        if n == 1 && cas == 1 {
            assert(inverse_5_3_spec(forward_5_3(s, cas), cas) =~= s);
        }
    } else {
        let d = predicted(s, cas);
        let u = updated(d, cas);
        assert forall|i: int| 0 <= i < n implies undo_update(u, cas)[i] == d[i] by {
            lemma_update_undone(d, cas, i);
        }
        assert(undo_update(u, cas) =~= d);
        assert forall|i: int| 0 <= i < n implies undo_predict(d, cas)[i] == s[i] by {
            lemma_predict_undone(s, cas, i);
        }
        assert(undo_predict(d, cas) =~= s);
    }
}

/// The forward transform keeps samples of up to 29 bits and a sign within `i32`.
proof fn lemma_small_signals_fit(s: Seq<i32>, cas: int)
    requires
        cas == 0 || cas == 1,
        forall|i: int| 0 <= i < s.len() ==> -0x2000_0000 < #[trigger] s[i] < 0x2000_0000,
    ensures
        forward_fits(s, cas),
{
    let n = s.len() as int;
    if n >= 2 {
        let d = predicted(s, cas);
        assert forall|i: int| 0 <= i < n implies -0x4000_0000 <= #[trigger] predict_at(s, cas, i)
            <= 0x4000_0000 by {
            lemma_reflect_neighbours(i, n);
            let (l, r) = (s[reflected(i - 1, n)], s[reflected(i + 1, n)]);
            assert(-0x2000_0000 < s[i] < 0x2000_0000);
            assert(-0x2000_0000 < l < 0x2000_0000 && -0x2000_0000 < r < 0x2000_0000);
        }
        assert forall|i: int| 0 <= i < n implies fits_i32(#[trigger] update_at(d, cas, i)) by {
            lemma_reflect_neighbours(i, n);
            let (l, r) = (reflected(i - 1, n), reflected(i + 1, n));
            assert(-0x4000_0000 <= predict_at(s, cas, i) <= 0x4000_0000);
            assert(-0x4000_0000 <= predict_at(s, cas, l) <= 0x4000_0000);
            assert(-0x4000_0000 <= predict_at(s, cas, r) <= 0x4000_0000);
            if i % 2 == cas {
                assert(d[i] == s[i]);
            }
        }
    }
}

/// Samples of up to 29 bits and a sign always survive the forward transform and its
/// inverse.
pub proof fn lemma_small_signals_round_trip(s: Seq<i32>, cas: int)
    requires
        cas == 0 || cas == 1,
        forall|i: int| 0 <= i < s.len() ==> -0x2000_0000 < #[trigger] s[i] < 0x2000_0000,
    ensures
        inverse_5_3_spec(forward_5_3(s, cas), cas) == s,
{
    lemma_small_signals_fit(s, cas);
    lemma_inverse_undoes_forward(s, cas);
}

/// The forward transform of every column.
pub open spec fn columns_forward(data: Seq<i32>, w: int, h: int, cas: int) -> Seq<i32> {
    Seq::new(data.len(), |k: int| forward_5_3(column_of(data, w, h, k % w), cas)[k / w])
}

/// The forward transform of every row.
pub open spec fn rows_forward(data: Seq<i32>, w: int, cas: int) -> Seq<i32> {
    Seq::new(data.len(), |k: int| forward_5_3(row_of(data, w, k / w), cas)[k % w])
}

/// No column's transform leaves `i32`.
pub open spec fn columns_fit(data: Seq<i32>, w: int, h: int, cas: int) -> bool {
    forall|x: int| 0 <= x < w ==> forward_fits(#[trigger] column_of(data, w, h, x), cas)
}

/// No row's transform leaves `i32`.
pub open spec fn rows_fit(data: Seq<i32>, w: int, h: int, cas: int) -> bool {
    forall|y: int| 0 <= y < h ==> forward_fits(#[trigger] row_of(data, w, y), cas)
}

/// The row and the column of a position.
proof fn lemma_position(k: int, w: int, h: int)
    requires
        0 <= k < w * h,
        w >= 0,
        h >= 0,
    ensures
        w > 0,
        0 <= k % w < w,
        0 <= k / w < h,
        k == (k / w) * w + k % w,
{
    assert(w > 0) by (nonlinear_arith)
        requires
            0 <= k < w * h,
            w >= 0,
    ;
    vstd::arithmetic::div_mod::lemma_fundamental_div_mod(k, w);
    vstd::arithmetic::div_mod::lemma_mod_bound(k, w);
    assert(0 <= k / w < h) by (nonlinear_arith)
        requires
            k == w * (k / w) + k % w,
            0 <= k % w < w,
            0 <= k < w * h,
    ;
    assert((k / w) * w == w * (k / w)) by (nonlinear_arith);
}

/// The inverse of every row undoes the forward transform of every row.
proof fn lemma_rows(data: Seq<i32>, w: int, h: int, cas: int)
    requires
        w >= 0,
        h >= 0,
        data.len() == w * h,
        cas == 0 || cas == 1,
        rows_fit(data, w, h, cas),
    ensures
        rows_done(rows_forward(data, w, cas), w, cas) == data,
{
    let f = rows_forward(data, w, cas);
    assert forall|k: int| 0 <= k < data.len() implies rows_done(f, w, cas)[k] == data[k] by {
        lemma_position(k, w, h);
        let y = k / w;
        let row = row_of(data, w, y);
        lemma_inverse_undoes_forward(row, cas);
        assert(row_of(f, w, y) =~= forward_5_3(row, cas)) by {
            assert forall|x: int| 0 <= x < w implies f[y * w + x] == forward_5_3(row, cas)[x] by {
                lemma_index_bound(x, y, w, h);
                lemma_row_column(x, y, w);
            }
        }
    }
    assert(rows_done(f, w, cas) =~= data);
}

/// The inverse of every column undoes the forward transform of every column.
proof fn lemma_columns(data: Seq<i32>, w: int, h: int, cas: int)
    requires
        w >= 0,
        h >= 0,
        data.len() == w * h,
        cas == 0 || cas == 1,
        columns_fit(data, w, h, cas),
    ensures
        columns_done(columns_forward(data, w, h, cas), w, h, cas) == data,
{
    let f = columns_forward(data, w, h, cas);
    assert forall|k: int| 0 <= k < data.len() implies columns_done(f, w, h, cas)[k] == data[k] by {
        lemma_position(k, w, h);
        let x = k % w;
        let column = column_of(data, w, h, x);
        lemma_inverse_undoes_forward(column, cas);
        assert(column_of(f, w, h, x) =~= forward_5_3(column, cas)) by {
            assert forall|y: int| 0 <= y < h implies f[y * w + x] == forward_5_3(column, cas)[y] by {
                lemma_index_bound(x, y, w, h);
                lemma_row_column(x, y, w);
            }
        }
    }
    assert(columns_done(f, w, h, cas) =~= data);
}

/// One parity quadrant of an interleaved grid, as a band at `origin`.
pub open spec fn gathered(
    data: Seq<i32>,
    w: int,
    h: int,
    col: int,
    row: int,
    origin: (u32, u32),
) -> GridView<i32> {
    let bw = low_count(w, col);
    let bh = low_count(h, row);
    GridView {
        origin,
        width: bw as nat,
        height: bh as nat,
        data: Seq::new(
            (bw * bh) as nat,
            |k: int| data[(2 * (k / bw) + row) * w + (2 * (k % bw) + col)],
        ),
    }
}

/// One level of decomposition: columns, then rows, then the four quadrants. The
/// low-pass band starts at half the origin rounded up, the high-pass bands at
/// half of it rounded down.
pub open spec fn split(g: GridView<i32>) -> (GridView<i32>, DetailView<i32>) {
    let (w, h) = (g.width as int, g.height as int);
    let (u, v) = (g.origin.0 as int, g.origin.1 as int);
    let (cx, cy) = (parity(u), parity(v));
    let data = rows_forward(columns_forward(g.data, w, h, cy), w, cx);
    let (lx, ly) = (((u + 1) / 2) as u32, ((v + 1) / 2) as u32);
    let (hx, hy) = ((u / 2) as u32, (v / 2) as u32);
    (
        gathered(data, w, h, cx, cy, (lx, ly)),
        DetailView {
            hl: gathered(data, w, h, 1 - cx, cy, (hx, ly)),
            lh: gathered(data, w, h, cx, 1 - cy, (lx, hy)),
            hh: gathered(data, w, h, 1 - cx, 1 - cy, (hx, hy)),
        },
    )
}

/// No value of one level of decomposition leaves `i32`.
pub open spec fn split_fits(g: GridView<i32>) -> bool {
    let (w, h) = (g.width as int, g.height as int);
    let (cx, cy) = (parity(g.origin.0 as int), parity(g.origin.1 as int));
    &&& columns_fit(g.data, w, h, cy)
    &&& rows_fit(columns_forward(g.data, w, h, cy), w, h, cx)
}

/// A grid that a machine can hold.
pub open spec fn grid_fits(g: GridView<i32>) -> bool {
    &&& g.wf()
    &&& g.width <= usize::MAX
    &&& g.height <= usize::MAX
    &&& g.width * g.height <= usize::MAX
}

/// A sample of a quadrant, read back.
proof fn lemma_gathered(
    data: Seq<i32>,
    w: int,
    h: int,
    col: int,
    row: int,
    origin: (u32, u32),
    x: int,
    y: int,
)
    requires
        0 <= x < w,
        0 <= y < h,
        col == 0 || col == 1,
        row == 0 || row == 1,
        x % 2 == col,
        y % 2 == row,
    ensures
        gathered(data, w, h, col, row, origin).at(x / 2, y / 2) == data[y * w + x],
{
    let bw = low_count(w, col);
    let bh = low_count(h, row);
    lemma_index_bound(x / 2, y / 2, bw, bh);
    lemma_row_column(x / 2, y / 2, bw);
}

/// One merge undoes one level of decomposition.
pub proof fn lemma_merge_undoes_split(g: GridView<i32>)
    requires
        grid_fits(g),
        split_fits(g),
    ensures
        level_fits(split(g).0, split(g).1),
        merged(split(g).0, split(g).1) == g,
{
    let (w, h) = (g.width as int, g.height as int);
    let (u, v) = (g.origin.0 as int, g.origin.1 as int);
    let (cx, cy) = (parity(u), parity(v));
    let down = columns_forward(g.data, w, h, cy);
    let data = rows_forward(down, w, cx);
    let (ll, d) = split(g);
    assert(low_count(w, cx) + low_count(w, 1 - cx) == w);
    assert(low_count(h, cy) + low_count(h, 1 - cy) == h);
    let i = interleaved(ll, d);
    assert(level_origin(ll, d) == g.origin);
    assert(low_count(w, cx) * low_count(h, cy) >= 0) by (nonlinear_arith)
        requires
            low_count(w, cx) >= 0,
            low_count(h, cy) >= 0,
    ;
    assert(low_count(w, 1 - cx) * low_count(h, cy) >= 0) by (nonlinear_arith)
        requires
            low_count(w, 1 - cx) >= 0,
            low_count(h, cy) >= 0,
    ;
    assert(low_count(w, cx) * low_count(h, 1 - cy) >= 0) by (nonlinear_arith)
        requires
            low_count(w, cx) >= 0,
            low_count(h, 1 - cy) >= 0,
    ;
    assert(low_count(w, 1 - cx) * low_count(h, 1 - cy) >= 0) by (nonlinear_arith)
        requires
            low_count(w, 1 - cx) >= 0,
            low_count(h, 1 - cy) >= 0,
    ;
    assert(i.data =~= data) by {
        assert forall|k: int| 0 <= k < w * h implies i.data[k] == data[k] by {
            lemma_position(k, w, h);
            let (x, y) = (k % w, k / w);
            let (lx, ly) = (((u + 1) / 2) as u32, ((v + 1) / 2) as u32);
            let (hx, hy) = ((u / 2) as u32, (v / 2) as u32);
            if x % 2 == cx && y % 2 == cy {
                lemma_gathered(data, w, h, cx, cy, (lx, ly), x, y);
            } else if y % 2 == cy {
                lemma_gathered(data, w, h, 1 - cx, cy, (hx, ly), x, y);
            } else if x % 2 == cx {
                lemma_gathered(data, w, h, cx, 1 - cy, (lx, hy), x, y);
            } else {
                lemma_gathered(data, w, h, 1 - cx, 1 - cy, (hx, hy), x, y);
            }
        }
    }
    lemma_rows(down, w, h, cx);
    lemma_columns(g.data, w, h, cy);
}

/// The pyramid of `levels` decompositions of a picture, coarsest level first.
pub open spec fn decomposed(g: GridView<i32>, levels: nat) -> BandsView<i32>
    decreases levels,
{
    if levels == 0 {
        BandsView { ll: g, levels: Seq::empty() }
    } else {
        let (ll, d) = split(g);
        let coarser = decomposed(ll, (levels - 1) as nat);
        BandsView { ll: coarser.ll, levels: coarser.levels.push(d) }
    }
}

/// No value of the pyramid's construction leaves `i32`.
pub open spec fn decomposition_fits(g: GridView<i32>, levels: nat) -> bool
    decreases levels,
{
    levels > 0 ==> split_fits(g) && decomposition_fits(split(g).0, (levels - 1) as nat)
}

/// Merging one more level on top of a pyramid.
proof fn lemma_merged_push(
    ll: GridView<i32>,
    levels: Seq<DetailView<i32>>,
    d: DetailView<i32>,
    i: int,
)
    requires
        0 <= i <= levels.len(),
    ensures
        merged_from(ll, levels.push(d), i) == merged(merged_from(ll, levels, i), d),
        pyramid_fits(ll, levels.push(d), i) == (pyramid_fits(ll, levels, i) && level_fits(
            merged_from(ll, levels, i),
            d,
        )),
    decreases levels.len() - i,
{
    let more = levels.push(d);
    if i == levels.len() {
        assert(more[i] == d);
        assert(merged_from(merged(ll, d), more, i + 1) == merged(ll, d));
        assert(pyramid_fits(merged(ll, d), more, i + 1));
    } else {
        assert(more[i] == levels[i]);
        lemma_merged_push(merged(ll, levels[i]), levels, d, i + 1);
    }
}

/// The lossless path: merging the pyramid of any picture, whatever its origin,
/// gives the picture back bit for bit.
pub proof fn lemma_reconstruction_is_exact(g: GridView<i32>, levels: nat)
    requires
        grid_fits(g),
        decomposition_fits(g, levels),
    ensures
        pyramid_fits(decomposed(g, levels).ll, decomposed(g, levels).levels, 0),
        merged_from(decomposed(g, levels).ll, decomposed(g, levels).levels, 0) == g,
        decomposed(g, levels).levels.len() == levels,
    decreases levels,
{
    if levels > 0 {
        let (ll, d) = split(g);
        lemma_merge_undoes_split(g);
        assert(grid_fits(ll)) by {
            assert(ll.width * ll.height <= g.width * g.height) by (nonlinear_arith)
                requires
                    ll.width <= g.width,
                    ll.height <= g.height,
            ;
        }
        let coarser = decomposed(ll, (levels - 1) as nat);
        lemma_reconstruction_is_exact(ll, (levels - 1) as nat);
        lemma_merged_push(coarser.ll, coarser.levels, d, 0);
    }
}

} // verus!
