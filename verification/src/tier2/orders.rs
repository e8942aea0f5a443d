//! What the progression orders have in common: each visits every packet of its
//! volume exactly once, so that they differ in nothing but sequence.
//!
//! The two orders that count precincts do so for any tile, and so does the order
//! that sweeps one component at a time. The two that sweep all components at once
//! step by the finest precinct of any of them, and meet every precinct where the
//! precincts' spans on the reference grid nest in one another, as those of
//! power-of-two sub-sampling do.

use super::geometry::{cells, Span};
use super::progression::{
    axes_of, axis_range, for_each_packet, is_corner, is_positional, lemma_precinct_in_grid,
    lemma_span_scale, max_resolutions, nest, nest_from, next_value, packet_of, packets_from, reach,
    run, volume_fits, volume_packets, volumes_of, whole_volume, At, Axis, Packet, PacketSink,
    PacketWalk, Progress, Range, Volume, WalkView,
};
use crate::codestream::markers::Progression;
use crate::codestream::{HeaderView, MainHeader};
use crate::error::{Fault, Result};
use crate::math::{ceil_div, lemma_ceil_div, lemma_ceil_div_mono, lemma_ceil_div_unique};
use vstd::arithmetic::div_mod::{
    lemma_div_multiples_vanish, lemma_fundamental_div_mod, lemma_fundamental_div_mod_converse,
    lemma_mod_bound,
};
use vstd::arithmetic::power2::{lemma_pow2_adds, lemma_pow2_pos, pow2};
use vstd::prelude::*;

verus! {

/// The reference-grid coordinate at which precinct `i` of an axis starts: on the
/// lattice of precincts, or at the tile's leading edge `t0` where the tile begins
/// inside the first one.
pub open spec fn corner_of(t0: int, s: int, exp: nat, i: int) -> int {
    let cell = pow2(exp) as int;
    let tr0 = ceil_div(t0, s);
    if i == 0 && tr0 % cell != 0 {
        t0
    } else {
        (tr0 / cell + i) * cell * s
    }
}

/// Every precinct of an axis starts at its corner, inside the tile.
pub proof fn lemma_corner(t0: int, t1: int, s: int, exp: nat, i: int)
    requires
        s > 0,
        0 <= t0,
        0 <= i < cells(Span { lo: ceil_div(t0, s), hi: ceil_div(t1, s) }, pow2(exp) as int),
    ensures
        t0 <= corner_of(t0, s, exp, i) < t1,
        is_corner(corner_of(t0, s, exp, i), t0, ceil_div(t0, s), s * pow2(exp), exp),
        ceil_div(corner_of(t0, s, exp, i), s) / (pow2(exp) as int) - ceil_div(t0, s) / (pow2(
            exp,
        ) as int) == i,
        corner_of(t0, s, exp, i) == t0 || corner_of(t0, s, exp, i) % (s * pow2(exp)) == 0,
{
    let cell = pow2(exp) as int;
    lemma_pow2_pos(exp);
    let tr0 = ceil_div(t0, s);
    let tr1 = ceil_div(t1, s);
    let c = corner_of(t0, s, exp, i);
    if t1 <= t0 {
        lemma_ceil_div_mono(t1, t0, s);
    }
    if !(i == 0 && tr0 % cell != 0) {
        let a = tr0 / cell;
        let k = a + i;
        let m = k * cell;
        lemma_ceil_div(t0, s);
        lemma_ceil_div(t1, s);
        lemma_ceil_div(tr1, cell);
        lemma_fundamental_div_mod(tr0, cell);
        lemma_mod_bound(tr0, cell);
        let b = ceil_div(tr1, cell);
        assert(m >= tr0) by (nonlinear_arith)
            requires
                m == k * cell,
                k == a + i,
                tr0 == cell * a + tr0 % cell,
                0 <= tr0 % cell < cell,
                i >= 1 || tr0 % cell == 0,
                i >= 0,
        ;
        assert(m < tr1) by (nonlinear_arith)
            requires
                m == k * cell,
                k <= b - 1,
                cell * (b - 1) < tr1,
                cell > 0,
        ;
        assert(c == s * m && c == (s * cell) * k) by (nonlinear_arith)
            requires
                c == m * s,
                m == k * cell,
        ;
        assert(t0 <= s * m) by (nonlinear_arith)
            requires
                t0 <= s * tr0,
                tr0 <= m,
                s > 0,
        ;
        assert(s * m < t1) by (nonlinear_arith)
            requires
                m <= tr1 - 1,
                s * (tr1 - 1) < t1,
                s > 0,
        ;
        assert(s * (m - 1) < c) by (nonlinear_arith)
            requires
                c == s * m,
                s > 0,
        ;
        lemma_ceil_div_unique(c, s, m);
        lemma_div_multiples_vanish(k, cell);
        assert(cell * k == m) by (nonlinear_arith)
            requires
                m == k * cell,
        ;
        assert(s * cell > 0) by (nonlinear_arith)
            requires
                s > 0,
                cell > 0,
        ;
        lemma_fundamental_div_mod_converse(c, s * cell, k, 0);
    }
}

/// A precinct of an axis starts at one point of the tile only.
proof fn lemma_corner_unique(v: int, t0: int, s: int, exp: nat)
    requires
        s > 0,
        0 <= t0 <= v,
        is_corner(v, t0, ceil_div(t0, s), s * pow2(exp), exp),
    ensures
        v == corner_of(
            t0,
            s,
            exp,
            ceil_div(v, s) / (pow2(exp) as int) - ceil_div(t0, s) / (pow2(exp) as int),
        ),
{
    let cell = pow2(exp) as int;
    lemma_pow2_pos(exp);
    let tr0 = ceil_div(t0, s);
    let span = s * cell;
    if v % span == 0 {
        let k = v / span;
        assert(span > 0) by (nonlinear_arith)
            requires
                span == s * cell,
                s > 0,
                cell > 0,
        ;
        lemma_fundamental_div_mod(v, span);
        let m = k * cell;
        assert(v == s * m && v == m * s) by (nonlinear_arith)
            requires
                v == span * k,
                span == s * cell,
                m == k * cell,
        ;
        assert(s * (m - 1) < v) by (nonlinear_arith)
            requires
                v == s * m,
                s > 0,
        ;
        lemma_ceil_div_unique(v, s, m);
        lemma_div_multiples_vanish(k, cell);
        assert(cell * k == m) by (nonlinear_arith)
            requires
                m == k * cell,
        ;
        lemma_ceil_div(t0, s);
        assert(m >= tr0) by (nonlinear_arith)
            requires
                s * (tr0 - 1) < t0,
                t0 <= v,
                v == s * m,
                s > 0,
        ;
        lemma_fundamental_div_mod(tr0, cell);
        lemma_mod_bound(tr0, cell);
        if k == tr0 / cell && tr0 % cell != 0 {
            assert(m < tr0);
        }
    }
}

impl WalkView {
    /// Where precinct `q` of `(comp, res)` starts on the reference grid,
    /// horizontally.
    pub open spec fn corner_x(&self, comp: int, res: int, q: int) -> int {
        let g = self.geoms[comp][res];
        corner_of(
            self.tile.x0 as int,
            self.scale_x(comp, res),
            g.ppx,
            q % (g.precincts_wide as int),
        )
    }

    /// Where precinct `q` of `(comp, res)` starts on the reference grid,
    /// vertically.
    pub open spec fn corner_y(&self, comp: int, res: int, q: int) -> int {
        let g = self.geoms[comp][res];
        corner_of(
            self.tile.y0 as int,
            self.scale_y(comp, res),
            g.ppy,
            q / (g.precincts_wide as int),
        )
    }
}

/// The scales of a resolution to the reference grid are positive.
pub proof fn lemma_scales_positive(w: WalkView, comp: int, res: int)
    requires
        w.wf(),
        w.has(comp, res),
    ensures
        w.scale_x(comp, res) > 0,
        w.scale_y(comp, res) > 0,
{
    let t = w.geoms[comp];
    lemma_pow2_pos(w.level(comp, res));
    let p = pow2(w.level(comp, res)) as int;
    let dx = w.siz.components[comp].x_sampling as int;
    let dy = w.siz.components[comp].y_sampling as int;
    assert(dx * p > 0 && dy * p > 0) by (nonlinear_arith)
        requires
            dx > 0,
            dy > 0,
            p > 0,
    ;
}

/// Every precinct of a resolution starts at one point of the tile, and the
/// precinct that starts there is that one.
pub proof fn lemma_precinct_has_corner(w: WalkView, comp: int, res: int, q: int)
    requires
        w.wf(),
        w.has(comp, res),
        0 <= q < w.precinct_count(comp, res),
    ensures
        w.tile.x0 <= w.corner_x(comp, res, q) < w.tile.x1,
        w.tile.y0 <= w.corner_y(comp, res, q) < w.tile.y1,
        w.precinct_at(comp, res, w.corner_x(comp, res, q), w.corner_y(comp, res, q)) == Some(q),
        w.corner_x(comp, res, q) == w.tile.x0 || w.corner_x(comp, res, q) % w.span_x(comp, res)
            == 0,
        w.corner_y(comp, res, q) == w.tile.y0 || w.corner_y(comp, res, q) % w.span_y(comp, res)
            == 0,
{
    assert(w.grid_fits(comp, res));
    let g = w.geoms[comp][res];
    lemma_scales_positive(w, comp, res);
    lemma_span_scale(w, comp, res);
    let wide = g.precincts_wide as int;
    let high = g.precincts_high as int;
    assert(wide > 0) by (nonlinear_arith)
        requires
            wide * high > 0,
            wide >= 0,
            high >= 0,
    ;
    lemma_fundamental_div_mod(q, wide);
    lemma_mod_bound(q, wide);
    let i = q % wide;
    let j = q / wide;
    vstd::arithmetic::div_mod::lemma_div_pos_is_pos(q, wide);
    assert(j < high) by (nonlinear_arith)
        requires
            q == wide * j + i,
            i >= 0,
            q < wide * high,
            wide > 0,
    ;
    lemma_corner(w.tile.x0 as int, w.tile.x1 as int, w.scale_x(comp, res), g.ppx, i);
    lemma_corner(w.tile.y0 as int, w.tile.y1 as int, w.scale_y(comp, res), g.ppy, j);
    assert(j * wide == wide * j) by (nonlinear_arith);
}

/// The precinct that starts at a point of the tile has its corner there.
proof fn lemma_corner_of_precinct(w: WalkView, comp: int, res: int, x: int, y: int)
    requires
        w.wf(),
        w.has(comp, res),
        w.tile.x0 <= x < w.tile.x1,
        w.tile.y0 <= y < w.tile.y1,
        w.precinct_at(comp, res, x, y) is Some,
    ensures
        0 <= w.precinct_at(comp, res, x, y).unwrap() < w.precinct_count(comp, res),
        w.corner_x(comp, res, w.precinct_at(comp, res, x, y).unwrap()) == x,
        w.corner_y(comp, res, w.precinct_at(comp, res, x, y).unwrap()) == y,
{
    lemma_precinct_in_grid(w, comp, res, x, y);
    lemma_scales_positive(w, comp, res);
    lemma_span_scale(w, comp, res);
    let g = w.geoms[comp][res];
    let wide = g.precincts_wide as int;
    let i = w.column_at(comp, res, x);
    let j = w.row_at(comp, res, y);
    let q = j * wide + i;
    assert(w.precinct_at(comp, res, x, y).unwrap() == q);
    assert(wide * j == j * wide) by (nonlinear_arith);
    lemma_fundamental_div_mod_converse(q, wide, j, i);
    lemma_corner_unique(x, w.tile.x0 as int, w.scale_x(comp, res), g.ppx);
    lemma_corner_unique(y, w.tile.y0 as int, w.scale_y(comp, res), g.ppy);
}

impl At {
    /// The value of one axis.
    pub open spec fn get(self, axis: Axis) -> int {
        match axis {
            Axis::Layer => self.layer,
            Axis::Res => self.res,
            Axis::Comp => self.comp,
            Axis::Row => self.y,
            Axis::Col => self.x,
            Axis::Precinct => self.precinct,
        }
    }
}

/// The value that each axis takes at a packet.
pub open spec fn place(w: WalkView, p: Packet, axis: Axis) -> int {
    match axis {
        Axis::Layer => p.layer,
        Axis::Res => p.res,
        Axis::Comp => p.comp,
        Axis::Row => w.corner_y(p.comp, p.res, p.precinct),
        Axis::Col => w.corner_x(p.comp, p.res, p.precinct),
        Axis::Precinct => p.precinct,
    }
}

/// The packet is one of the volume's.
pub open spec fn member(w: WalkView, v: Volume, p: Packet) -> bool {
    &&& 0 <= p.layer < v.layers
    &&& v.res_start <= p.res < v.res_end
    &&& v.comp_start <= p.comp < v.comp_end
    &&& w.has(p.comp, p.res)
    &&& 0 <= p.precinct < w.precinct_count(p.comp, p.res)
}

/// A sweep from `start` meets `value`.
pub open spec fn meets(start: int, end: int, step: int, value: int) -> bool {
    start <= value < end && (value == start || value % step == 0)
}

/// The axis takes the value.
pub open spec fn takes(r: Range, value: int) -> bool {
    meets(r.start, r.end, r.step, value)
}

/// The first `k` axes are where the packet is.
pub open spec fn agrees(w: WalkView, axes: Seq<Axis>, k: nat, at: At, p: Packet) -> bool {
    forall|j: int| 0 <= j < k && j < axes.len() ==> at.get(#[trigger] axes[j]) == place(w, p, axes[j])
}

/// The first `k` axes have values of their own.
pub open spec fn placed(w: WalkView, v: Volume, axes: Seq<Axis>, k: nat, at: At) -> bool {
    forall|j: int|
        0 <= j < k && j < axes.len() ==> takes(
            axis_range(w, v, #[trigger] axes[j], at),
            at.get(axes[j]),
        )
}

/// The sweep of `order` meets the corner of precinct `q`.
pub open spec fn corner_swept(w: WalkView, order: Progression, comp: int, res: int, q: int) -> bool {
    &&& w.sweep_step_x(order, comp) matches Some(step) && meets(
        w.tile.x0 as int,
        w.tile.x1 as int,
        step,
        w.corner_x(comp, res, q),
    )
    &&& w.sweep_step_y(order, comp) matches Some(step) && meets(
        w.tile.y0 as int,
        w.tile.y1 as int,
        step,
        w.corner_y(comp, res, q),
    )
}

/// Where the order sweeps the reference grid, the sweep meets the corner of every
/// precinct.
pub open spec fn sweep_meets_all(w: WalkView, order: Progression) -> bool {
    is_positional(order) ==> forall|c: int, r: int, q: int|
        w.has(c, r) && 0 <= q < w.precinct_count(c, r) ==> #[trigger] corner_swept(w, order, c, r, q)
}

/// An order's axes are distinct, and an axis's values do not depend on those
/// nested inside it.
proof fn lemma_set_keeps(w: WalkView, v: Volume, k: nat, at: At, value: int)
    requires
        k < axes_of(v.progression).len(),
    ensures
        at.set(axes_of(v.progression)[k as int], value).get(axes_of(v.progression)[k as int])
            == value,
        forall|j: int|
            0 <= j < k ==> {
                &&& at.set(axes_of(v.progression)[k as int], value).get(
                    #[trigger] axes_of(v.progression)[j],
                ) == at.get(axes_of(v.progression)[j])
                &&& axis_range(
                    w,
                    v,
                    axes_of(v.progression)[j],
                    at.set(axes_of(v.progression)[k as int], value),
                ) == axis_range(w, v, axes_of(v.progression)[j], at)
            },
        axis_range(
            w,
            v,
            axes_of(v.progression)[k as int],
            at.set(axes_of(v.progression)[k as int], value),
        ) == axis_range(w, v, axes_of(v.progression)[k as int], at),
{
    let axes = axes_of(v.progression);
    assert(axes.len() == 4 || axes.len() == 6);
}

/// Fixing axis `k` at `value` places and matches as many axes more.
pub proof fn lemma_fix(w: WalkView, v: Volume, k: nat, at: At, value: int)
    requires
        k < axes_of(v.progression).len(),
        placed(w, v, axes_of(v.progression), k, at),
        takes(axis_range(w, v, axes_of(v.progression)[k as int], at), value),
    ensures
        placed(
            w,
            v,
            axes_of(v.progression),
            k + 1,
            at.set(axes_of(v.progression)[k as int], value),
        ),
        forall|p: Packet| #[trigger]
            agrees(
                w,
                axes_of(v.progression),
                k + 1,
                at.set(axes_of(v.progression)[k as int], value),
                p,
            ) == (agrees(w, axes_of(v.progression), k, at, p) && value == place(
                w,
                p,
                axes_of(v.progression)[k as int],
            )),
{
    let axes = axes_of(v.progression);
    let next = at.set(axes[k as int], value);
    lemma_set_keeps(w, v, k, at, value);
    assert forall|j: int| 0 <= j < k + 1 && j < axes.len() implies takes(
        axis_range(w, v, #[trigger] axes[j], next),
        next.get(axes[j]),
    ) by {
        if j < k {
            assert(takes(axis_range(w, v, axes[j], at), at.get(axes[j])));
        }
    }
    assert forall|p: Packet| #[trigger] agrees(w, axes, k + 1, next, p) == (agrees(
        w,
        axes,
        k,
        at,
        p,
    ) && value == place(w, p, axes[k as int])) by {
        if agrees(w, axes, k + 1, next, p) {
            assert(next.get(axes[k as int]) == place(w, p, axes[k as int]));
            assert forall|j: int| 0 <= j < k && j < axes.len() implies at.get(#[trigger] axes[j])
                == place(w, p, axes[j]) by {
                assert(next.get(axes[j]) == place(w, p, axes[j]));
            }
        }
        if agrees(w, axes, k, at, p) && value == place(w, p, axes[k as int]) {
            assert forall|j: int| 0 <= j < k + 1 && j < axes.len() implies next.get(
                #[trigger] axes[j],
            ) == place(w, p, axes[j]) by {
                if j < k {
                    assert(at.get(axes[j]) == place(w, p, axes[j]));
                }
            }
        }
    }
}

/// The axis nested next takes the value at which the packet lies.
proof fn lemma_place_taken(w: WalkView, v: Volume, k: nat, at: At, p: Packet)
    requires
        w.wf(),
        volume_fits(w, v),
        sweep_meets_all(w, v.progression),
        k < axes_of(v.progression).len(),
        member(w, v, p),
        agrees(w, axes_of(v.progression), k, at, p),
    ensures
        takes(
            axis_range(w, v, axes_of(v.progression)[k as int], at),
            place(w, p, axes_of(v.progression)[k as int]),
        ),
{
    let axes = axes_of(v.progression);
    let axis = axes[k as int];
    if is_positional(v.progression) {
        assert(corner_swept(w, v.progression, p.comp, p.res, p.precinct));
        lemma_precinct_has_corner(w, p.comp, p.res, p.precinct);
    }
    if k > 0 {
        assert(at.get(axes[0]) == place(w, p, axes[0]));
    }
    if k > 1 {
        assert(at.get(axes[1]) == place(w, p, axes[1]));
    }
    if k > 2 {
        assert(at.get(axes[2]) == place(w, p, axes[2]));
    }
    if k > 3 {
        assert(at.get(axes[3]) == place(w, p, axes[3]));
    }
}

/// Once every axis is fixed, one packet is left.
#[verifier::rlimit(30)]
pub proof fn lemma_all_axes(w: WalkView, v: Volume, at: At, p: Packet)
    requires
        w.wf(),
        volume_fits(w, v),
        placed(w, v, axes_of(v.progression), axes_of(v.progression).len(), at),
    ensures
        (p == at.packet()) == (member(w, v, p) && agrees(
            w,
            axes_of(v.progression),
            axes_of(v.progression).len(),
            at,
            p,
        )),
{
    let axes = axes_of(v.progression);
    let n = axes.len();
    assert(takes(axis_range(w, v, axes[0], at), at.get(axes[0])));
    assert(takes(axis_range(w, v, axes[1], at), at.get(axes[1])));
    assert(takes(axis_range(w, v, axes[2], at), at.get(axes[2])));
    assert(takes(axis_range(w, v, axes[3], at), at.get(axes[3])));
    if is_positional(v.progression) {
        assert(takes(axis_range(w, v, axes[4], at), at.get(axes[4])));
        assert(takes(axis_range(w, v, axes[5], at), at.get(axes[5])));
    }
    let q = at.packet();
    if is_positional(v.progression) {
        lemma_corner_of_precinct(w, at.comp, at.res, at.x, at.y);
    }
    assert(member(w, v, q));
    assert(agrees(w, axes, n, at, q));
    if member(w, v, p) && agrees(w, axes, n, at, p) {
        assert(at.get(axes[0]) == place(w, p, axes[0]));
        assert(at.get(axes[1]) == place(w, p, axes[1]));
        assert(at.get(axes[2]) == place(w, p, axes[2]));
        assert(at.get(axes[3]) == place(w, p, axes[3]));
        if is_positional(v.progression) {
            assert(at.get(axes[4]) == place(w, p, axes[4]));
            assert(at.get(axes[5]) == place(w, p, axes[5]));
        }
    }
}

/// The axes from `k` inward visit each packet that the fixed ones allow, once.
proof fn lemma_nest(w: WalkView, v: Volume, k: nat, at: At)
    requires
        w.wf(),
        volume_fits(w, v),
        sweep_meets_all(w, v.progression),
        k <= axes_of(v.progression).len(),
        placed(w, v, axes_of(v.progression), k, at),
    ensures
        nest(w, v, axes_of(v.progression), k, at).no_duplicates(),
        forall|p: Packet| #[trigger]
            nest(w, v, axes_of(v.progression), k, at).contains(p) == (member(w, v, p) && agrees(
                w,
                axes_of(v.progression),
                k,
                at,
                p,
            )),
    decreases axes_of(v.progression).len() - k, 1int, 0int,
{
    let axes = axes_of(v.progression);
    if k >= axes.len() {
        let one = nest(w, v, axes, k, at);
        assert(k == axes.len());
        assert(one =~= seq![at.packet()]);
        assert(one[0] == at.packet());
        assert forall|p: Packet| #[trigger] one.contains(p) == (member(w, v, p) && agrees(
            w,
            axes,
            k,
            at,
            p,
        )) by {
            assert(one.contains(p) == (p == at.packet()));
            lemma_all_axes(w, v, at, p);
        }
    } else {
        let r = axis_range(w, v, axes[k as int], at);
        lemma_nest_from(w, v, k, at, r.start, r);
        assert forall|p: Packet| #[trigger] nest(w, v, axes, k, at).contains(p) == (member(w, v, p)
            && agrees(w, axes, k, at, p)) by {
            if member(w, v, p) && agrees(w, axes, k, at, p) {
                lemma_place_taken(w, v, k, at, p);
            }
        }
    }
}

/// The values of axis `k` from `value` on visit each packet that lies there, once.
proof fn lemma_nest_from(w: WalkView, v: Volume, k: nat, at: At, value: int, r: Range)
    requires
        w.wf(),
        volume_fits(w, v),
        sweep_meets_all(w, v.progression),
        k < axes_of(v.progression).len(),
        placed(w, v, axes_of(v.progression), k, at),
        r == axis_range(w, v, axes_of(v.progression)[k as int], at),
        value == r.start || (value >= r.start && value % r.step == 0),
    ensures
        nest_from(w, v, axes_of(v.progression), k, at, value, r.end, r.step).no_duplicates(),
        forall|p: Packet| #[trigger]
            nest_from(w, v, axes_of(v.progression), k, at, value, r.end, r.step).contains(p) == (
            member(w, v, p) && agrees(w, axes_of(v.progression), k, at, p) && meets(
                value,
                r.end,
                r.step,
                place(w, p, axes_of(v.progression)[k as int]),
            )),
    decreases axes_of(v.progression).len() - k, 0int, crate::math::max_int(0, r.end - value),
{
    let axes = axes_of(v.progression);
    let axis = axes[k as int];
    lemma_step_positive(w, v, k, at);
    let all = nest_from(w, v, axes, k, at, value, r.end, r.step);
    if value >= r.end {
        assert(all =~= Seq::<Packet>::empty());
    } else {
        let next = next_value(value, r.step);
        lemma_next_value(value, r.step);
        let here = nest(w, v, axes, k + 1, at.set(axis, value));
        let rest = nest_from(w, v, axes, k, at, next, r.end, r.step);
        assert(all == here + rest);
        lemma_fix(w, v, k, at, value);
        lemma_nest(w, v, k + 1, at.set(axis, value));
        lemma_nest_from(w, v, k, at, next, r);
        assert forall|i: int, j: int|
            0 <= i < here.len() && 0 <= j < rest.len() implies #[trigger] here[i]
            != #[trigger] rest[j] by {
            assert(here.contains(here[i]));
            assert(rest.contains(rest[j]));
        }
        vstd::seq_lib::lemma_no_dup_in_concat(here, rest);
        assert forall|p: Packet| #[trigger] all.contains(p) == (member(w, v, p) && agrees(
            w,
            axes,
            k,
            at,
            p,
        ) && meets(value, r.end, r.step, place(w, p, axis))) by {
            vstd::seq_lib::lemma_seq_concat_contains_all_elements(here, rest, p);
            lemma_meets_next(value, r.end, r.step, place(w, p, axis));
            assert(agrees(w, axes, k + 1, at.set(axis, value), p) == (agrees(w, axes, k, at, p)
                && value == place(w, p, axis)));
        }
    }
}

/// The next value of a sweep is the next multiple of its step.
pub proof fn lemma_next_value(value: int, step: int)
    requires
        step > 0,
    ensures
        next_value(value, step) > value,
        next_value(value, step) % step == 0,
{
    lemma_mod_bound(value, step);
    lemma_fundamental_div_mod(value, step);
    let q = value / step;
    assert(value + step - value % step == (q + 1) * step) by (nonlinear_arith)
        requires
            value == step * q + value % step,
    ;
    vstd::arithmetic::div_mod::lemma_mod_multiples_basic(q + 1, step);
}

/// A sweep meets its first value, and what it meets from the next one on.
proof fn lemma_meets_next(value: int, end: int, step: int, x: int)
    requires
        step > 0,
        value < end,
    ensures
        meets(value, end, step, x) == (x == value || meets(next_value(value, step), end, step, x)),
{
    let next = next_value(value, step);
    lemma_next_value(value, step);
    if value < x < next && x % step == 0 {
        lemma_mod_bound(value, step);
        lemma_fundamental_div_mod(value, step);
        lemma_fundamental_div_mod(x, step);
        let (a, b) = (value / step, x / step);
        assert(next == step * (a + 1)) by (nonlinear_arith)
            requires
                next == value + step - value % step,
                value == step * a + value % step,
        ;
        assert(b < a + 1) by (nonlinear_arith)
            requires
                step * b < step * (a + 1),
                step > 0,
        ;
        assert(b >= a + 1) by (nonlinear_arith)
            requires
                step * b > step * a,
                step > 0,
        ;
    }
}

/// A step is no coarser than a span that lies on the 32-bit reference grid.
pub open spec fn covers(step: Option<int>, span: int) -> bool {
    span <= u32::MAX ==> step is Some && step.unwrap() <= span
}

/// The step is the width of a precinct of the first `n` components.
pub open spec fn is_width(w: WalkView, step: int, n: int) -> bool {
    exists|c: int, r: int| #[trigger]
        w.has(c, r) && c < n && step == w.span_x(c, r) && step <= u32::MAX
}

/// The step is the height of a precinct of the first `n` components.
pub open spec fn is_height(w: WalkView, step: int, n: int) -> bool {
    exists|c: int, r: int| #[trigger]
        w.has(c, r) && c < n && step == w.span_y(c, r) && step <= u32::MAX
}

/// A component's step is the finest of its precincts and the step given.
proof fn lemma_comp_step(w: WalkView, sx: Option<int>, sy: Option<int>, c: int, n: nat)
    requires
        0 <= c < w.geoms.len(),
        n <= w.geoms[c].len(),
        sx is Some ==> is_width(w, sx.unwrap(), c),
        sy is Some ==> is_height(w, sy.unwrap(), c),
    ensures
        forall|r: int| 0 <= r < n ==> covers(w.comp_step_x(sx, c, n), #[trigger] w.span_x(c, r)),
        forall|r: int| 0 <= r < n ==> covers(w.comp_step_y(sy, c, n), #[trigger] w.span_y(c, r)),
        sx is Some ==> covers(w.comp_step_x(sx, c, n), sx.unwrap()),
        sy is Some ==> covers(w.comp_step_y(sy, c, n), sy.unwrap()),
        w.comp_step_x(sx, c, n) matches Some(step) ==> is_width(w, step, c + 1),
        w.comp_step_y(sy, c, n) matches Some(step) ==> is_height(w, step, c + 1),
        sx is None ==> (w.comp_step_x(sx, c, n) matches Some(step) ==> exists|r: int|
            0 <= r < n && step == #[trigger] w.span_x(c, r)),
        sy is None ==> (w.comp_step_y(sy, c, n) matches Some(step) ==> exists|r: int|
            0 <= r < n && step == #[trigger] w.span_y(c, r)),
    decreases n,
{
    if n > 0 {
        lemma_comp_step(w, sx, sy, c, (n - 1) as nat);
        assert(w.has(c, n - 1));
        let (px, py) = (w.span_x(c, n - 1), w.span_y(c, n - 1));
    }
}

/// The step over all components is the finest of their precincts.
proof fn lemma_all_step(w: WalkView, n: nat)
    requires
        n <= w.geoms.len(),
    ensures
        forall|c: int, r: int|
            #![trigger w.span_x(c, r)]
            w.has(c, r) && c < n ==> covers(w.all_step_x(n), w.span_x(c, r)),
        forall|c: int, r: int|
            #![trigger w.span_y(c, r)]
            w.has(c, r) && c < n ==> covers(w.all_step_y(n), w.span_y(c, r)),
        w.all_step_x(n) matches Some(step) ==> is_width(w, step, n as int),
        w.all_step_y(n) matches Some(step) ==> is_height(w, step, n as int),
    decreases n,
{
    if n > 0 {
        let m = (n - 1) as nat;
        lemma_all_step(w, m);
        lemma_comp_step(w, w.all_step_x(m), w.all_step_y(m), n - 1, w.geoms[n - 1].len());
        assert forall|c: int, r: int|
            #![trigger w.span_x(c, r)]
            w.has(c, r) && c < n implies covers(w.all_step_x(n), w.span_x(c, r)) by {
            if c < m {
                assert(covers(w.all_step_x(m), w.span_x(c, r)));
            }
        }
        assert forall|c: int, r: int|
            #![trigger w.span_y(c, r)]
            w.has(c, r) && c < n implies covers(w.all_step_y(n), w.span_y(c, r)) by {
            if c < m {
                assert(covers(w.all_step_y(m), w.span_y(c, r)));
            }
        }
    }
}

/// A precinct spans at least one point of the reference grid.
proof fn lemma_spans_positive(w: WalkView, comp: int, res: int)
    requires
        w.wf(),
        w.has(comp, res),
    ensures
        w.span_x(comp, res) > 0,
        w.span_y(comp, res) > 0,
{
    lemma_scales_positive(w, comp, res);
    lemma_span_scale(w, comp, res);
    let g = w.geoms[comp][res];
    lemma_pow2_pos(g.ppx);
    lemma_pow2_pos(g.ppy);
    let (sx, sy) = (w.scale_x(comp, res), w.scale_y(comp, res));
    let (px, py) = (pow2(g.ppx) as int, pow2(g.ppy) as int);
    assert(sx * px > 0 && sy * py > 0) by (nonlinear_arith)
        requires
            sx > 0,
            sy > 0,
            px > 0,
            py > 0,
    ;
}

/// Every axis steps forward.
pub proof fn lemma_step_positive(w: WalkView, v: Volume, k: nat, at: At)
    requires
        w.wf(),
        volume_fits(w, v),
        k < axes_of(v.progression).len(),
        placed(w, v, axes_of(v.progression), k, at),
    ensures
        axis_range(w, v, axes_of(v.progression)[k as int], at).step > 0,
{
    let axes = axes_of(v.progression);
    let axis = axes[k as int];
    if axis == Axis::Row || axis == Axis::Col {
        let n = w.geoms.len();
        if v.progression == Progression::Cprl {
            assert(axes[0] == Axis::Comp);
            assert(takes(axis_range(w, v, axes[0], at), at.get(axes[0])));
            lemma_comp_step(w, None, None, at.comp, w.geoms[at.comp].len());
        } else {
            lemma_all_step(w, n);
        }
        assert forall|c: int, r: int| #[trigger] w.has(c, r) implies w.span_x(c, r) > 0 && w.span_y(
            c,
            r,
        ) > 0 by {
            lemma_spans_positive(w, c, r);
        }
    }
}

/// Of two precinct spans on the 32-bit reference grid, the finer divides the
/// coarser.
pub open spec fn spans_nest(w: WalkView) -> bool {
    forall|c1: int, r1: int, c2: int, r2: int| #[trigger]
        w.has(c1, r1) && #[trigger] w.has(c2, r2) ==> {
            &&& w.span_x(c1, r1) <= w.span_x(c2, r2) ==> w.span_x(c2, r2) % w.span_x(c1, r1) == 0
            &&& w.span_y(c1, r1) <= w.span_y(c2, r2) ==> w.span_y(c2, r2) % w.span_y(c1, r1) == 0
        }
}

/// The precincts of a component's own resolution lie on the 32-bit reference grid.
proof fn lemma_own_span_fits(w: WalkView, c: int)
    requires
        w.wf(),
        0 <= c < w.geoms.len(),
    ensures
        w.has(c, w.geoms[c].len() - 1),
        w.span_x(c, w.geoms[c].len() - 1) <= u32::MAX,
        w.span_y(c, w.geoms[c].len() - 1) <= u32::MAX,
{
    let r = w.geoms[c].len() - 1;
    let t = w.geoms[c];
    assert(w.has(c, r) && w.grid_fits(c, r));
    let g = w.geoms[c][r];
    vstd::arithmetic::power2::lemma2_to64();
    if g.ppx < 15 {
        vstd::arithmetic::power2::lemma_pow2_strictly_increases(g.ppx, 15);
    }
    if g.ppy < 15 {
        vstd::arithmetic::power2::lemma_pow2_strictly_increases(g.ppy, 15);
    }
    lemma_pow2_pos(g.ppx);
    lemma_pow2_pos(g.ppy);
    let (dx, dy) = (w.siz.components[c].x_sampling as int, w.siz.components[c].y_sampling as int);
    let (px, py) = (pow2(g.ppx) as int, pow2(g.ppy) as int);
    assert(dx * px <= 255 * 0x8000 && dy * py <= 255 * 0x8000) by (nonlinear_arith)
        requires
            0 <= dx <= 255,
            0 <= dy <= 255,
            0 <= px <= 0x8000,
            0 <= py <= 0x8000,
    ;
}

/// A sweep by a step that divides a precinct's span meets its corner.
proof fn lemma_corner_met(t0: int, t1: int, step: int, span: int, corner: int)
    requires
        step > 0,
        t0 <= corner < t1 <= u32::MAX,
        0 <= t0,
        span > 0,
        corner == t0 || corner % span == 0,
        span <= u32::MAX ==> span % step == 0,
    ensures
        meets(t0, t1, step, corner),
{
    if corner != t0 {
        lemma_fundamental_div_mod(corner, span);
        let q = corner / span;
        assert(span <= corner) by (nonlinear_arith)
            requires
                corner == span * q,
                corner > 0,
                span > 0,
        ;
        lemma_fundamental_div_mod(span, step);
        let a = span / step;
        assert(corner == step * (a * q) + 0) by (nonlinear_arith)
            requires
                corner == span * q,
                span == step * a,
        ;
        lemma_fundamental_div_mod_converse(corner, step, a * q, 0);
    }
}

/// A step that is itself a span divides the coarser ones where spans nest.
proof fn lemma_step_divides(w: WalkView, sx: int, sy: int, c: int, r: int, n: int)
    requires
        w.wf(),
        spans_nest(w),
        w.has(c, r),
        is_width(w, sx, n),
        is_height(w, sy, n),
    ensures
        sx <= w.span_x(c, r) ==> w.span_x(c, r) % sx == 0,
        sy <= w.span_y(c, r) ==> w.span_y(c, r) % sy == 0,
        sx > 0,
        sy > 0,
{
    let (c1, r1) = choose|c1: int, r1: int| #[trigger]
        w.has(c1, r1) && c1 < n && sx == w.span_x(c1, r1) && sx <= u32::MAX;
    let (c2, r2) = choose|c2: int, r2: int| #[trigger]
        w.has(c2, r2) && c2 < n && sy == w.span_y(c2, r2) && sy <= u32::MAX;
    lemma_spans_positive(w, c1, r1);
    lemma_spans_positive(w, c2, r2);
    assert(w.has(c1, r1) && w.has(c, r));
    assert(w.has(c2, r2) && w.has(c, r));
}

/// Where the precincts' spans nest, every sweep meets the corner of every
/// precinct.
pub proof fn lemma_nested_spans_are_met(w: WalkView, order: Progression)
    requires
        w.wf(),
        spans_nest(w),
        order != Progression::Cprl,
    ensures
        sweep_meets_all(w, order),
{
    let n = w.geoms.len();
    lemma_all_step(w, n);
    assert forall|c: int, r: int, q: int|
        w.has(c, r) && 0 <= q < w.precinct_count(c, r) implies #[trigger] corner_swept(
        w,
        order,
        c,
        r,
        q,
    ) by {
        lemma_own_span_fits(w, c);
        let last = w.geoms[c].len() - 1;
        assert(covers(w.all_step_x(n), w.span_x(c, last)));
        assert(covers(w.all_step_y(n), w.span_y(c, last)));
        let (sx, sy) = (w.all_step_x(n).unwrap(), w.all_step_y(n).unwrap());
        assert(covers(w.all_step_x(n), w.span_x(c, r)));
        assert(covers(w.all_step_y(n), w.span_y(c, r)));
        lemma_step_divides(w, sx, sy, c, r, n as int);
        lemma_precinct_has_corner(w, c, r, q);
        lemma_spans_positive(w, c, r);
        lemma_corner_met(
            w.tile.x0 as int,
            w.tile.x1 as int,
            sx,
            w.span_x(c, r),
            w.corner_x(c, r, q),
        );
        lemma_corner_met(
            w.tile.y0 as int,
            w.tile.y1 as int,
            sy,
            w.span_y(c, r),
            w.corner_y(c, r, q),
        );
    }
}

/// Of two spans with a common factor, the one of the smaller power of two divides
/// the other.
proof fn lemma_powers_nest(d: int, a: nat, b: nat)
    requires
        d > 0,
        d * pow2(a) <= d * pow2(b),
    ensures
        (d * pow2(b)) % (d * pow2(a)) == 0,
{
    lemma_pow2_pos(a);
    lemma_pow2_pos(b);
    let (pa, pb) = (pow2(a) as int, pow2(b) as int);
    if b < a {
        vstd::arithmetic::power2::lemma_pow2_strictly_increases(b, a);
        assert(d * pb < d * pa) by (nonlinear_arith)
            requires
                d > 0,
                pb < pa,
        ;
    }
    let e = (b - a) as nat;
    lemma_pow2_adds(a, e);
    let pe = pow2(e) as int;
    assert(d * pb == pe * (d * pa)) by (nonlinear_arith)
        requires
            pb == pa * pe,
    ;
    assert(d * pa > 0) by (nonlinear_arith)
        requires
            d > 0,
            pa > 0,
    ;
    vstd::arithmetic::div_mod::lemma_mod_multiples_basic(pe, d * pa);
}

/// The sweep of one component at a time meets the corner of every precinct.
pub proof fn lemma_component_sweep_meets_all(w: WalkView)
    requires
        w.wf(),
    ensures
        sweep_meets_all(w, Progression::Cprl),
{
    assert forall|c: int, r: int, q: int|
        w.has(c, r) && 0 <= q < w.precinct_count(c, r) implies #[trigger] corner_swept(
        w,
        Progression::Cprl,
        c,
        r,
        q,
    ) by {
        let n = w.geoms[c].len();
        lemma_comp_step(w, None, None, c, n);
        lemma_own_span_fits(w, c);
        let (ox, oy) = (w.comp_step_x(None, c, n), w.comp_step_y(None, c, n));
        assert(covers(ox, w.span_x(c, n - 1)));
        assert(covers(oy, w.span_y(c, n - 1)));
        let (sx, sy) = (ox.unwrap(), oy.unwrap());
        assert(covers(ox, w.span_x(c, r)));
        assert(covers(oy, w.span_y(c, r)));
        let rx = choose|rx: int| 0 <= rx < n && sx == #[trigger] w.span_x(c, rx);
        let ry = choose|ry: int| 0 <= ry < n && sy == #[trigger] w.span_y(c, ry);
        assert(w.has(c, rx) && w.has(c, ry));
        let t = w.geoms[c];
        let (dx, dy) = (
            w.siz.components[c].x_sampling as int,
            w.siz.components[c].y_sampling as int,
        );
        if sx <= w.span_x(c, r) {
            lemma_powers_nest(
                dx,
                w.geoms[c][rx].ppx + w.level(c, rx),
                w.geoms[c][r].ppx + w.level(c, r),
            );
        }
        if sy <= w.span_y(c, r) {
            lemma_powers_nest(
                dy,
                w.geoms[c][ry].ppy + w.level(c, ry),
                w.geoms[c][r].ppy + w.level(c, r),
            );
        }
        lemma_precinct_has_corner(w, c, r, q);
        lemma_spans_positive(w, c, r);
        lemma_spans_positive(w, c, rx);
        lemma_spans_positive(w, c, ry);
        lemma_corner_met(
            w.tile.x0 as int,
            w.tile.x1 as int,
            sx,
            w.span_x(c, r),
            w.corner_x(c, r, q),
        );
        lemma_corner_met(
            w.tile.y0 as int,
            w.tile.y1 as int,
            sy,
            w.span_y(c, r),
            w.corner_y(c, r, q),
        );
    }
}

/// The component's sub-sampling is a power of two times `dx` horizontally and
/// `dy` vertically.
pub open spec fn sampled_by(w: WalkView, c: int, dx: int, dy: int) -> bool {
    exists|a: nat, b: nat|
        w.siz.components[c].x_sampling == dx * #[trigger] pow2(a)
            && w.siz.components[c].y_sampling == dy * #[trigger] pow2(b)
}

/// Precinct spans nest where the components' sub-sampling factors differ by powers
/// of two only, as they do where all components share them.
pub proof fn lemma_power_of_two_sampling_nests(w: WalkView, dx: int, dy: int)
    requires
        w.wf(),
        dx > 0,
        dy > 0,
        forall|c: int| 0 <= c < w.geoms.len() ==> #[trigger] sampled_by(w, c, dx, dy),
    ensures
        spans_nest(w),
{
    assert forall|c1: int, r1: int, c2: int, r2: int| #[trigger]
        w.has(c1, r1) && #[trigger] w.has(c2, r2) implies {
        &&& w.span_x(c1, r1) <= w.span_x(c2, r2) ==> w.span_x(c2, r2) % w.span_x(c1, r1) == 0
        &&& w.span_y(c1, r1) <= w.span_y(c2, r2) ==> w.span_y(c2, r2) % w.span_y(c1, r1) == 0
    } by {
        assert(sampled_by(w, c1, dx, dy) && sampled_by(w, c2, dx, dy));
        let (a1, b1) = choose|a: nat, b: nat|
            w.siz.components[c1].x_sampling == dx * #[trigger] pow2(a)
                && w.siz.components[c1].y_sampling == dy * #[trigger] pow2(b);
        let (a2, b2) = choose|a: nat, b: nat|
            w.siz.components[c2].x_sampling == dx * #[trigger] pow2(a)
                && w.siz.components[c2].y_sampling == dy * #[trigger] pow2(b);
        let (g1, g2) = (w.geoms[c1][r1], w.geoms[c2][r2]);
        let (l1, l2) = (w.level(c1, r1), w.level(c2, r2));
        lemma_factor(dx, a1, g1.ppx + l1);
        lemma_factor(dx, a2, g2.ppx + l2);
        lemma_factor(dy, b1, g1.ppy + l1);
        lemma_factor(dy, b2, g2.ppy + l2);
        if w.span_x(c1, r1) <= w.span_x(c2, r2) {
            lemma_powers_nest(dx, a1 + (g1.ppx + l1), a2 + (g2.ppx + l2));
        }
        if w.span_y(c1, r1) <= w.span_y(c2, r2) {
            lemma_powers_nest(dy, b1 + (g1.ppy + l1), b2 + (g2.ppy + l2));
        }
    }
}

/// Powers of two gather.
proof fn lemma_factor(d: int, a: nat, b: nat)
    ensures
        d * pow2(a) * pow2(b) == d * pow2(a + b),
{
    lemma_pow2_adds(a, b);
    let (pa, pb) = (pow2(a) as int, pow2(b) as int);
    assert(d * pa * pb == d * (pa * pb)) by (nonlinear_arith);
}

/// An order visits every packet of its volume exactly once.
pub proof fn lemma_each_packet_once(w: WalkView, v: Volume)
    requires
        w.wf(),
        volume_fits(w, v),
        sweep_meets_all(w, v.progression),
    ensures
        volume_packets(w, v).no_duplicates(),
        forall|p: Packet| #[trigger] volume_packets(w, v).contains(p) == member(w, v, p),
{
    lemma_nest(w, v, 0, At::origin());
    let axes = axes_of(v.progression);
    assert forall|p: Packet| #[trigger] volume_packets(w, v).contains(p) == member(w, v, p) by {
        assert(agrees(w, axes, 0, At::origin(), p));
    }
}

/// Two orders over the same ranges visit the same packets, each the same number of
/// times.
pub proof fn lemma_orders_are_permutations(w: WalkView, v: Volume, order: Progression)
    requires
        w.wf(),
        volume_fits(w, v),
        sweep_meets_all(w, v.progression),
        sweep_meets_all(w, order),
    ensures
        volume_packets(w, v).to_multiset() == volume_packets(
            w,
            Volume { progression: order, ..v },
        ).to_multiset(),
{
    let u = Volume { progression: order, ..v };
    lemma_each_packet_once(w, v);
    lemma_each_packet_once(w, u);
    let (a, b) = (volume_packets(w, v), volume_packets(w, u));
    assert forall|p: Packet| a.to_multiset().count(p) == b.to_multiset().count(p) by {
        assert(a.contains(p) == member(w, v, p));
        assert(b.contains(p) == member(w, u, p));
        a.to_multiset_ensures();
        b.to_multiset_ensures();
        a.lemma_multiset_has_no_duplicates();
        b.lemma_multiset_has_no_duplicates();
        assert(a.to_multiset().contains(p) == a.contains(p));
        assert(b.to_multiset().contains(p) == b.contains(p));
    }
    assert(a.to_multiset() =~= b.to_multiset());
}

/// The packets that have not been seen, each where it comes first.
pub open spec fn firsts(packets: Seq<Packet>, seen: Set<Packet>) -> Seq<Packet>
    decreases packets.len(),
{
    if packets.len() == 0 {
        Seq::empty()
    } else if seen.contains(packets[0]) {
        firsts(packets.drop_first(), seen)
    } else {
        seq![packets[0]] + firsts(packets.drop_first(), seen.insert(packets[0]))
    }
}

/// Among the first occurrences each packet stands once, and none that was seen.
pub proof fn lemma_firsts_once(packets: Seq<Packet>, seen: Set<Packet>)
    ensures
        firsts(packets, seen).no_duplicates(),
        forall|p: Packet| #[trigger]
            firsts(packets, seen).contains(p) == (packets.contains(p) && !seen.contains(p)),
    decreases packets.len(),
{
    let all = firsts(packets, seen);
    if packets.len() == 0 {
        assert(all =~= Seq::<Packet>::empty());
    } else {
        let head = packets[0];
        let tail = packets.drop_first();
        assert(packets =~= seq![head] + tail);
        assert forall|p: Packet| #[trigger] packets.contains(p) == (p == head || tail.contains(
            p,
        )) by {
            vstd::seq_lib::lemma_seq_concat_contains_all_elements(seq![head], tail, p);
            assert(seq![head][0] == head);
        }
        if seen.contains(head) {
            lemma_firsts_once(tail, seen);
        } else {
            lemma_firsts_once(tail, seen.insert(head));
            let rest = firsts(tail, seen.insert(head));
            assert forall|i: int, j: int|
                0 <= i < 1 && 0 <= j < rest.len() implies #[trigger] seq![head][i]
                != #[trigger] rest[j] by {
                assert(rest.contains(rest[j]));
            }
            vstd::seq_lib::lemma_no_dup_in_concat(seq![head], rest);
            assert forall|p: Packet| #[trigger] all.contains(p) == (packets.contains(p)
                && !seen.contains(p)) by {
                vstd::seq_lib::lemma_seq_concat_contains_all_elements(seq![head], rest, p);
                assert(seq![head][0] == head);
            }
        }
    }
}

/// A walk that remembers what it has emitted gives the sink each packet once,
/// where it is first reached: the sink ends as if it had been given the first
/// occurrences alone, or with the same error.
pub proof fn lemma_repeats_emitted_once<S: PacketSink>(
    model: S::Model,
    seen: Set<Packet>,
    packets: Seq<Packet>,
)
    ensures
        match (
            run::<S>(Progress { model, seen: Some(seen) }, packets),
            run::<S>(Progress { model, seen: None }, firsts(packets, seen)),
        ) {
            (Ok(a), Ok(b)) => a.model == b.model,
            (Err(a), Err(b)) => a == b,
            _ => false,
        },
    decreases packets.len(),
{
    if packets.len() > 0 {
        let head = packets[0];
        let tail = packets.drop_first();
        let start: Progress<S::Model> = Progress { model, seen: Some(seen) };
        if seen.contains(head) {
            assert(reach::<S>(start, head) == Ok::<Progress<S::Model>, Fault>(start));
            lemma_repeats_emitted_once::<S>(model, seen, tail);
        } else {
            let rest = firsts(tail, seen.insert(head));
            let all = firsts(packets, seen);
            assert(all[0] == head);
            assert(all.drop_first() =~= rest);
            match S::step(model, head) {
                Ok(next) => {
                    lemma_repeats_emitted_once::<S>(next, seen.insert(head), tail);
                },
                Err(_) => {},
            }
        }
    }
}

/// No component is deeper than the deepest.
pub proof fn lemma_deepest(w: WalkView, n: nat)
    requires
        w.wf(),
        n <= w.geoms.len(),
    ensures
        0 <= max_resolutions(w, n) <= 33,
        forall|c: int| 0 <= c < n ==> (#[trigger] w.geoms[c]).len() <= max_resolutions(w, n),
    decreases n,
{
    if n > 0 {
        lemma_deepest(w, (n - 1) as nat);
        let g = w.geoms[n - 1];
    }
}

/// Without progression volumes of its own, a tile's walk visits every layer of
/// every precinct of every resolution of every component, exactly once.
pub proof fn lemma_tile_walk_is_complete(h: HeaderView, w: WalkView)
    requires
        w.wf(),
        w.geoms.len() <= usize::MAX,
        h.poc.len() == 0,
        sweep_meets_all(w, h.cod.progression),
    ensures
        packets_from(w, volumes_of(h, w), 0).no_duplicates(),
        forall|p: Packet| #[trigger]
            packets_from(w, volumes_of(h, w), 0).contains(p) == (0 <= p.layer < h.cod.layers
                && w.has(p.comp, p.res) && 0 <= p.precinct < w.precinct_count(p.comp, p.res)),
{
    let v = whole_volume(w, h.cod.progression, h.cod.layers);
    let volumes = volumes_of(h, w);
    assert(volumes =~= seq![v]);
    lemma_deepest(w, w.geoms.len());
    lemma_each_packet_once(w, v);
    reveal_with_fuel(packets_from, 2);
    let all = packets_from(w, volumes, 0);
    assert(all =~= volume_packets(w, v));
    assert forall|p: Packet| #[trigger] all.contains(p) == (0 <= p.layer < h.cod.layers && w.has(
        p.comp,
        p.res,
    ) && 0 <= p.precinct < w.precinct_count(p.comp, p.res)) by {
        assert(volume_packets(w, v).contains(p) == member(w, v, p));
    }
}

/// The packets of a tile in the order in which they are decoded: those of the
/// header's one volume, or the first occurrences over its several volumes.
pub open spec fn tile_order(h: HeaderView, w: WalkView) -> Seq<Packet> {
    let packets = packets_from(w, volumes_of(h, w), 0);
    if volumes_of(h, w).len() == 1 {
        packets
    } else {
        firsts(packets, Set::empty())
    }
}

/// The packets of executable quadruples: layer, resolution, component, precinct.
pub open spec fn visit_views(s: Seq<(u32, usize, usize, usize)>) -> Seq<Packet> {
    Seq::new(s.len(), |i: int| packet_of(s[i].0, s[i].1, s[i].2, s[i].3))
}

/// A sink that lists the packets it is given.
pub struct Recorder {
    pub visits: Vec<(u32, usize, usize, usize)>,
}

impl PacketSink for Recorder {
    type Model = Seq<Packet>;

    open spec fn model(&self) -> Seq<Packet> {
        visit_views(self.visits@)
    }

    open spec fn inv(&self) -> bool {
        true
    }

    open spec fn accepts(&self, p: Packet) -> bool {
        true
    }

    open spec fn step(m: Seq<Packet>, p: Packet) -> core::result::Result<Seq<Packet>, Fault> {
        Ok(m.push(p))
    }

    fn visit(&mut self, layer: u32, res: usize, comp: usize, precinct: usize) -> (r: Result<()>) {
        let ghost before = self.model();
        self.visits.push((layer, res, comp, precinct));
        assert(self.model() =~= before.push(packet_of(layer, res, comp, precinct)));
        Ok(())
    }
}

/// A recorder that remembers nothing else lists every packet it reaches.
proof fn lemma_recorded(model: Seq<Packet>, packets: Seq<Packet>)
    ensures
        run::<Recorder>(Progress { model, seen: None }, packets) == Ok::<
            Progress<Seq<Packet>>,
            Fault,
        >(Progress { model: model + packets, seen: None }),
    decreases packets.len(),
{
    if packets.len() == 0 {
        assert(model + packets =~= model);
    } else {
        lemma_recorded(model.push(packets[0]), packets.drop_first());
        assert(model.push(packets[0]) + packets.drop_first() =~= model + packets);
    }
}

/// List the packets of a tile in the order in which they are decoded, as layer,
/// resolution, component and precinct.
pub fn packet_order(header: &MainHeader, walk: &PacketWalk<'_>) -> (r: Vec<
    (u32, usize, usize, usize),
>)
    requires
        walk@.wf(),
    ensures
        visit_views(r@) == tile_order(header@, walk@),
{
    let mut recorder = Recorder { visits: Vec::new() };
    let ghost none = Seq::<Packet>::empty();
    assert(recorder.model() =~= none);
    let outcome: Result<()> = for_each_packet(header, walk, &mut recorder);
    proof {
        let packets = packets_from(walk@, volumes_of(header@, walk@), 0);
        let once = firsts(packets, Set::empty());
        lemma_recorded(none, packets);
        lemma_recorded(none, once);
        lemma_repeats_emitted_once::<Recorder>(none, Set::empty(), packets);
        assert(none + packets =~= packets);
        assert(none + once =~= once);
    }
    recorder.visits
}

} // verus!
