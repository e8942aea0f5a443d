//! The sequence in which a tile's packets come.
//!
//! Each progression order sorts the packets by the axes that it is named after. The
//! position is where a precinct starts on the reference grid, top to bottom and then
//! left to right; the orders that name it last count a resolution's precincts in the
//! same raster order.

use super::orders::{
    agrees, corner_of, lemma_all_axes, lemma_corner, lemma_deepest, lemma_each_packet_once,
    lemma_fix, lemma_next_value, lemma_precinct_has_corner, lemma_scales_positive,
    lemma_step_positive, member, place, placed, sweep_meets_all,
};
use super::progression::{
    axes_of, axis_range, nest, nest_from, next_value, volume_fits, volume_packets, volumes_of, At,
    Axis, Packet, Range, Volume, WalkView,
};
use crate::codestream::markers::Progression;
use crate::codestream::HeaderView;
use crate::math::{ceil_div, max_int};
use vstd::arithmetic::div_mod::{lemma_fundamental_div_mod, lemma_mod_bound};
use vstd::arithmetic::power2::{lemma_pow2_pos, pow2};
use vstd::prelude::*;

verus! {

/// Where precinct `i` of an axis starts on the reference grid, whose points lie `scale`
/// to a sample: at a multiple of its `2^exp` samples, or where the tile starts if that
/// is later.
pub open spec fn start_of(tile: int, scale: int, exp: nat, i: int) -> int {
    let first = ceil_div(tile, scale);
    let sample = (first / (pow2(exp) as int) + i) * pow2(exp);
    if sample < first {
        tile
    } else {
        sample * scale
    }
}

/// The reference-grid column at which a packet's precinct starts.
pub open spec fn left_of(w: WalkView, p: Packet) -> int {
    let g = w.geoms[p.comp][p.res];
    start_of(
        w.tile.x0 as int,
        w.siz.components[p.comp].x_sampling * pow2((w.geoms[p.comp].len() - 1 - p.res) as nat),
        g.ppx,
        p.precinct % (g.precincts_wide as int),
    )
}

/// The reference-grid row at which a packet's precinct starts.
pub open spec fn top_of(w: WalkView, p: Packet) -> int {
    let g = w.geoms[p.comp][p.res];
    start_of(
        w.tile.y0 as int,
        w.siz.components[p.comp].y_sampling * pow2((w.geoms[p.comp].len() - 1 - p.res) as nat),
        g.ppy,
        p.precinct / (g.precincts_wide as int),
    )
}

/// What an order sorts a packet by, first things first.
pub open spec fn rank(w: WalkView, order: Progression, p: Packet) -> Seq<int> {
    match order {
        Progression::Lrcp => seq![p.layer, p.res, p.comp, p.precinct],
        Progression::Rlcp => seq![p.res, p.layer, p.comp, p.precinct],
        Progression::Rpcl => seq![p.res, top_of(w, p), left_of(w, p), p.comp, p.layer],
        Progression::Pcrl => seq![top_of(w, p), left_of(w, p), p.comp, p.res, p.layer],
        Progression::Cprl => seq![p.comp, top_of(w, p), left_of(w, p), p.res, p.layer],
    }
}

/// `a` sorts before `b`: it is less where the two first differ.
pub open spec fn sorts_before(a: Seq<int>, b: Seq<int>) -> bool {
    exists|k: int|
        0 <= k < a.len() && k < b.len() && #[trigger] a[k] < b[k] && forall|j: int|
            0 <= j < k ==> #[trigger] a[j] == b[j]
}

/// Packets stand in an order's sequence.
pub open spec fn sorted(w: WalkView, order: Progression, packets: Seq<Packet>) -> bool {
    forall|i: int, j: int|
        0 <= i < j < packets.len() ==> sorts_before(
            rank(w, order, #[trigger] packets[i]),
            rank(w, order, #[trigger] packets[j]),
        )
}

/// Two packets part at an axis from `k` on, and `p` has the smaller value there.
spec fn ahead(w: WalkView, axes: Seq<Axis>, k: nat, p: Packet, q: Packet) -> bool {
    exists|m: int| #[trigger] parts_at(w, axes, k, m, p, q)
}

/// Two packets agree from axis `k` up to `m`, where `p` has the smaller value.
spec fn parts_at(w: WalkView, axes: Seq<Axis>, k: nat, m: int, p: Packet, q: Packet) -> bool {
    &&& k <= m < axes.len()
    &&& place(w, p, axes[m]) < place(w, q, axes[m])
    &&& forall|j: int| k <= j < m ==> place(w, p, #[trigger] axes[j]) == place(w, q, axes[j])
}

/// What a nest visits lies where its fixed axes are, each packet ahead of the later
/// ones.
spec fn lined_up(w: WalkView, v: Volume, k: nat, at: At, packets: Seq<Packet>) -> bool {
    let axes = axes_of(v.progression);
    &&& forall|i: int|
        0 <= i < packets.len() ==> member(w, v, #[trigger] packets[i]) && agrees(
            w,
            axes,
            k,
            at,
            packets[i],
        )
    &&& forall|i: int, j: int|
        0 <= i < j < packets.len() ==> ahead(
            w,
            axes,
            k,
            #[trigger] packets[i],
            #[trigger] packets[j],
        )
}

/// The axes from `k` inward visit their packets in line.
proof fn lemma_nest_lined_up(w: WalkView, v: Volume, k: nat, at: At)
    requires
        w.wf(),
        volume_fits(w, v),
        k <= axes_of(v.progression).len(),
        placed(w, v, axes_of(v.progression), k, at),
    ensures
        lined_up(w, v, k, at, nest(w, v, axes_of(v.progression), k, at)),
    decreases axes_of(v.progression).len() - k, 1int, 0int,
{
    let axes = axes_of(v.progression);
    if k >= axes.len() {
        assert(nest(w, v, axes, k, at) =~= seq![at.packet()]);
        lemma_all_axes(w, v, at, at.packet());
    } else {
        let r = axis_range(w, v, axes[k as int], at);
        lemma_nest_from_lined_up(w, v, k, at, r.start, r);
    }
}

/// The values of axis `k` from `value` on visit their packets in line.
proof fn lemma_nest_from_lined_up(w: WalkView, v: Volume, k: nat, at: At, value: int, r: Range)
    requires
        w.wf(),
        volume_fits(w, v),
        k < axes_of(v.progression).len(),
        placed(w, v, axes_of(v.progression), k, at),
        r == axis_range(w, v, axes_of(v.progression)[k as int], at),
        value == r.start || (value >= r.start && value % r.step == 0),
    ensures
        ({
            let axes = axes_of(v.progression);
            let all = nest_from(w, v, axes, k, at, value, r.end, r.step);
            &&& lined_up(w, v, k, at, all)
            &&& forall|i: int|
                0 <= i < all.len() ==> place(w, #[trigger] all[i], axes[k as int]) >= value
        }),
    decreases axes_of(v.progression).len() - k, 0int, max_int(0, r.end - value),
{
    let axes = axes_of(v.progression);
    let axis = axes[k as int];
    lemma_step_positive(w, v, k, at);
    let all = nest_from(w, v, axes, k, at, value, r.end, r.step);
    if value >= r.end {
        assert(all =~= Seq::<Packet>::empty());
    } else {
        let next = next_value(value, r.step);
        lemma_next_value(value, r.step);
        let inner = at.set(axis, value);
        let here = nest(w, v, axes, k + 1, inner);
        let rest = nest_from(w, v, axes, k, at, next, r.end, r.step);
        assert(all == here + rest);
        lemma_fix(w, v, k, at, value);
        lemma_nest_lined_up(w, v, k + 1, inner);
        lemma_nest_from_lined_up(w, v, k, at, next, r);
        let n = here.len() as int;
        assert forall|i: int| 0 <= i < all.len() implies member(w, v, #[trigger] all[i]) && agrees(
            w,
            axes,
            k,
            at,
            all[i],
        ) && place(w, all[i], axis) >= value && (i < n ==> place(w, all[i], axis) == value) by {
            if i < n {
                assert(all[i] == here[i]);
                assert(agrees(w, axes, k + 1, inner, here[i]));
            } else {
                assert(all[i] == rest[i - n]);
            }
        }
        assert forall|i: int, j: int| 0 <= i < j < all.len() implies ahead(
            w,
            axes,
            k,
            #[trigger] all[i],
            #[trigger] all[j],
        ) by {
            if j < n {
                assert(all[i] == here[i] && all[j] == here[j]);
                assert(ahead(w, axes, k + 1, here[i], here[j]));
                let m = choose|m: int| #[trigger] parts_at(w, axes, k + 1, m, here[i], here[j]);
                assert(parts_at(w, axes, k, m, all[i], all[j]));
            } else if i < n {
                assert(all[j] == rest[j - n]);
                assert(place(w, all[j], axis) >= next);
                assert(parts_at(w, axes, k, k as int, all[i], all[j]));
            } else {
                assert(all[i] == rest[i - n] && all[j] == rest[j - n]);
                assert(ahead(w, axes, k, rest[i - n], rest[j - n]));
            }
        }
    }
}

/// A precinct starts where its order sweeps it.
proof fn lemma_start(tile: int, scale: int, exp: nat, i: int)
    requires
        scale > 0,
        i >= 0,
    ensures
        start_of(tile, scale, exp, i) == corner_of(tile, scale, exp, i),
{
    let first = ceil_div(tile, scale);
    let cell = pow2(exp) as int;
    lemma_pow2_pos(exp);
    lemma_fundamental_div_mod(first, cell);
    lemma_mod_bound(first, cell);
    let k = first / cell;
    assert((k + i) * cell == k * cell + i * cell && k * cell == cell * k) by (nonlinear_arith);
    assert(i > 0 ==> i * cell >= cell) by (nonlinear_arith)
        requires
            cell > 0,
    ;
    assert(i == 0 ==> i * cell == 0) by (nonlinear_arith);
}

/// The starts of a packet's precinct.
proof fn lemma_starts(w: WalkView, p: Packet)
    requires
        w.wf(),
        w.has(p.comp, p.res),
        0 <= p.precinct < w.precinct_count(p.comp, p.res),
    ensures
        left_of(w, p) == place(w, p, Axis::Col),
        top_of(w, p) == place(w, p, Axis::Row),
{
    let g = w.geoms[p.comp][p.res];
    let (wide, high) = (g.precincts_wide as int, g.precincts_high as int);
    assert(wide > 0) by (nonlinear_arith)
        requires
            wide * high > 0,
            wide >= 0,
            high >= 0,
    ;
    lemma_scales_positive(w, p.comp, p.res);
    lemma_mod_bound(p.precinct, wide);
    vstd::arithmetic::div_mod::lemma_div_pos_is_pos(p.precinct, wide);
    lemma_start(w.tile.x0 as int, w.scale_x(p.comp, p.res), g.ppx, p.precinct % wide);
    lemma_start(w.tile.y0 as int, w.scale_y(p.comp, p.res), g.ppy, p.precinct / wide);
}

/// The packets of one resolution whose precincts start at one point share a precinct.
proof fn lemma_one_precinct_starts(w: WalkView, p: Packet, q: Packet)
    requires
        w.wf(),
        w.has(p.comp, p.res),
        0 <= p.precinct < w.precinct_count(p.comp, p.res),
        0 <= q.precinct < w.precinct_count(p.comp, p.res),
        p.comp == q.comp,
        p.res == q.res,
        place(w, p, Axis::Col) == place(w, q, Axis::Col),
        place(w, p, Axis::Row) == place(w, q, Axis::Row),
    ensures
        p.precinct == q.precinct,
{
    lemma_precinct_has_corner(w, p.comp, p.res, p.precinct);
    lemma_precinct_has_corner(w, q.comp, q.res, q.precinct);
}

/// A packet that is ahead of another on the order's axes ranks before it.
#[verifier::rlimit(30)]
proof fn lemma_ahead_ranks(w: WalkView, v: Volume, p: Packet, q: Packet)
    requires
        w.wf(),
        member(w, v, p),
        member(w, v, q),
        ahead(w, axes_of(v.progression), 0, p, q),
    ensures
        sorts_before(rank(w, v.progression, p), rank(w, v.progression, q)),
{
    let axes = axes_of(v.progression);
    let (a, b) = (rank(w, v.progression, p), rank(w, v.progression, q));
    let m = choose|m: int| #[trigger] parts_at(w, axes, 0, m, p, q);
    lemma_starts(w, p);
    lemma_starts(w, q);
    if p.comp == q.comp && p.res == q.res && top_of(w, p) == top_of(w, q) && left_of(w, p)
        == left_of(w, q) {
        lemma_one_precinct_starts(w, p, q);
    }
    let (t, u, x, y) = (top_of(w, p), top_of(w, q), left_of(w, p), left_of(w, q));
    assert(m > 0 ==> place(w, p, axes[0]) == place(w, q, axes[0]));
    assert(m > 1 ==> place(w, p, axes[1]) == place(w, q, axes[1]));
    assert(m > 2 ==> place(w, p, axes[2]) == place(w, q, axes[2]));
    assert(m > 3 ==> place(w, p, axes[3]) == place(w, q, axes[3]));
    let k = if m == 5 { 4 } else { m };
    lemma_ranks_part(a, b, k);
}

/// Ranks that part at place `k` are sorted.
proof fn lemma_ranks_part(a: Seq<int>, b: Seq<int>, k: int)
    requires
        0 <= k < 5,
        k < a.len(),
        k < b.len(),
        a[k] < b[k],
        k > 0 ==> a[0] == b[0],
        k > 1 ==> a[1] == b[1],
        k > 2 ==> a[2] == b[2],
        k > 3 ==> a[3] == b[3],
    ensures
        sorts_before(a, b),
{
    assert forall|j: int| 0 <= j < k implies #[trigger] a[j] == b[j] by {
        assert(j == 0 || j == 1 || j == 2 || j == 3);
    }
}

/// An order visits the packets of its volume in the sequence that it is named after:
/// by layer, resolution, component and precinct; by resolution, layer, component and
/// precinct; or, with the position for the precinct, by resolution, position, component
/// and layer; by position, component, resolution and layer; by component, position,
/// resolution and layer. Positions run along rows, and rows from the top down.
pub proof fn lemma_volume_is_sorted(w: WalkView, v: Volume)
    requires
        w.wf(),
        volume_fits(w, v),
    ensures
        sorted(w, v.progression, volume_packets(w, v)),
{
    lemma_nest_lined_up(w, v, 0, At::origin());
    let all = volume_packets(w, v);
    assert forall|i: int, j: int| 0 <= i < j < all.len() implies sorts_before(
        rank(w, v.progression, #[trigger] all[i]),
        rank(w, v.progression, #[trigger] all[j]),
    ) by {
        assert(ahead(w, axes_of(v.progression), 0, all[i], all[j]));
        lemma_ahead_ranks(w, v, all[i], all[j]);
    }
}

/// Of two precincts of an axis the later one starts later.
proof fn lemma_starts_grow(t0: int, t1: int, scale: int, exp: nat, i: int, j: int)
    requires
        scale > 0,
        0 <= t0,
        0 <= i,
        0 <= j,
        i < super::geometry::cells(
            super::geometry::Span { lo: ceil_div(t0, scale), hi: ceil_div(t1, scale) },
            pow2(exp) as int,
        ),
        j < super::geometry::cells(
            super::geometry::Span { lo: ceil_div(t0, scale), hi: ceil_div(t1, scale) },
            pow2(exp) as int,
        ),
        start_of(t0, scale, exp, i) <= start_of(t0, scale, exp, j),
    ensures
        i <= j,
{
    lemma_start(t0, scale, exp, i);
    lemma_start(t0, scale, exp, j);
    lemma_corner(t0, t1, scale, exp, i);
    lemma_corner(t0, t1, scale, exp, j);
    let (a, b) = (corner_of(t0, scale, exp, i), corner_of(t0, scale, exp, j));
    lemma_pow2_pos(exp);
    crate::math::lemma_ceil_div_mono(a, b, scale);
    vstd::arithmetic::div_mod::lemma_div_is_ordered(
        ceil_div(a, scale),
        ceil_div(b, scale),
        pow2(exp) as int,
    );
}

/// The precincts of one resolution of one component come in increasing index, in every
/// order: of two packets of one layer, the earlier one has the smaller precinct.
pub proof fn lemma_precincts_come_in_raster_order(w: WalkView, v: Volume, i: int, j: int)
    requires
        w.wf(),
        volume_fits(w, v),
        0 <= i < j < volume_packets(w, v).len(),
        volume_packets(w, v)[i].comp == volume_packets(w, v)[j].comp,
        volume_packets(w, v)[i].res == volume_packets(w, v)[j].res,
        volume_packets(w, v)[i].layer == volume_packets(w, v)[j].layer,
    ensures
        volume_packets(w, v)[i].precinct < volume_packets(w, v)[j].precinct,
{
    let all = volume_packets(w, v);
    let (p, q) = (all[i], all[j]);
    lemma_nest_lined_up(w, v, 0, At::origin());
    lemma_volume_is_sorted(w, v);
    let (a, b) = (rank(w, v.progression, p), rank(w, v.progression, q));
    assert(sorts_before(a, b));
    let k = choose|k: int|
        0 <= k < a.len() && k < b.len() && #[trigger] a[k] < b[k] && forall|j: int|
            0 <= j < k ==> #[trigger] a[j] == b[j];
    assert(k > 0 ==> a[0] == b[0]);
    assert(k > 1 ==> a[1] == b[1]);
    assert(k > 2 ==> a[2] == b[2]);
    assert(k > 3 ==> a[3] == b[3]);
    assert(member(w, v, p) && member(w, v, q));
    let (c, r) = (p.comp, p.res);
    assert(w.grid_fits(c, r));
    let g = w.geoms[c][r];
    let (wide, high) = (g.precincts_wide as int, g.precincts_high as int);
    assert(wide > 0) by (nonlinear_arith)
        requires
            wide * high > 0,
            wide >= 0,
            high >= 0,
    ;
    let (x1, y1) = (p.precinct % wide, p.precinct / wide);
    let (x2, y2) = (q.precinct % wide, q.precinct / wide);
    lemma_fundamental_div_mod(p.precinct, wide);
    lemma_fundamental_div_mod(q.precinct, wide);
    lemma_mod_bound(p.precinct, wide);
    lemma_mod_bound(q.precinct, wide);
    vstd::arithmetic::div_mod::lemma_div_pos_is_pos(p.precinct, wide);
    vstd::arithmetic::div_mod::lemma_div_pos_is_pos(q.precinct, wide);
    if super::progression::is_positional(v.progression) {
        lemma_scales_positive(w, c, r);
        assert(y1 < high && y2 < high) by (nonlinear_arith)
            requires
                p.precinct == wide * y1 + x1,
                q.precinct == wide * y2 + x2,
                x1 >= 0,
                x2 >= 0,
                p.precinct < wide * high,
                q.precinct < wide * high,
                wide > 0,
        ;
        let (sx, sy) = (w.scale_x(c, r), w.scale_y(c, r));
        let t = w.tile;
        if top_of(w, p) < top_of(w, q) {
            lemma_starts_grow(t.y0 as int, t.y1 as int, sy, g.ppy, y1, y2);
            assert(y1 < y2);
            assert(wide * y2 >= wide * y1 + wide) by (nonlinear_arith)
                requires
                    y1 + 1 <= y2,
                    wide > 0,
            ;
        } else {
            assert(top_of(w, p) == top_of(w, q) && left_of(w, p) < left_of(w, q));
            lemma_starts_grow(t.y0 as int, t.y1 as int, sy, g.ppy, y1, y2);
            lemma_starts_grow(t.y0 as int, t.y1 as int, sy, g.ppy, y2, y1);
            lemma_starts_grow(t.x0 as int, t.x1 as int, sx, g.ppx, x1, x2);
        }
    }
}

/// A progression volume of the header visits, once each and in its own order, the
/// packets whose resolution and component lie in its ranges and whose layer lies below
/// its end, among those that the tile has.
pub proof fn lemma_progression_volume(h: HeaderView, w: WalkView, i: int)
    requires
        w.wf(),
        w.geoms.len() <= usize::MAX,
        0 <= i < h.poc.len(),
        sweep_meets_all(w, h.poc[i].progression),
    ensures
        ({
            let poc = h.poc[i];
            let packets = volume_packets(w, volumes_of(h, w)[i]);
            &&& volumes_of(h, w).len() == h.poc.len()
            &&& packets.no_duplicates()
            &&& sorted(w, poc.progression, packets)
            &&& forall|p: Packet| #[trigger]
                packets.contains(p) <==> {
                    &&& 0 <= p.layer < poc.layer_end
                    &&& p.layer < h.cod.layers
                    &&& poc.res_start <= p.res < poc.res_end
                    &&& poc.comp_start <= p.comp < poc.comp_end
                    &&& w.has(p.comp, p.res)
                    &&& 0 <= p.precinct < w.precinct_count(p.comp, p.res)
                }
        }),
{
    let v = volumes_of(h, w)[i];
    lemma_deepest(w, w.geoms.len());
    lemma_each_packet_once(w, v);
    lemma_volume_is_sorted(w, v);
    assert forall|p: Packet| member(w, v, p) implies p.res < h.poc[i].res_end by {}
}

/// Without progression volumes the packets come in the order of the coding style.
pub proof fn lemma_default_order(h: HeaderView, w: WalkView)
    requires
        w.wf(),
        w.geoms.len() <= usize::MAX,
        h.poc.len() == 0,
    ensures
        volumes_of(h, w).len() == 1,
        sorted(w, h.cod.progression, super::orders::tile_order(h, w)),
{
    let v = volumes_of(h, w)[0];
    lemma_volume_is_sorted(w, v);
    reveal_with_fuel(super::progression::packets_from, 2);
    assert(super::progression::packets_from(w, volumes_of(h, w), 0) =~= volume_packets(w, v));
}

} // verus!
