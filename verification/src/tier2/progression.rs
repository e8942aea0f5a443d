//! Progression-order packet iteration (ISO/IEC 15444-1 B.12.1).
//!
//! A tile's packets are enumerated in the order that its `COD` prescribes, or
//! through the sequence of progression volumes of its `POC` markers. An order is
//! a nest of axes:
//!
//! ```text
//! LRCP    layer, resolution, component, position
//! RLCP    resolution, layer, component, position
//! RPCL    resolution, position, component, layer
//! PCRL    position, component, resolution, layer
//! CPRL    component, position, resolution, layer
//! ```
//!
//! Where the position is innermost, precincts are counted in raster order. Where
//! it is not, a packet's place depends on where its precinct sits on the canvas,
//! so the reference grid is swept in steps of the finest precinct, and every
//! component and resolution is asked whether a precinct of its own starts there.

use super::geometry::{cells, resolution_views, ResolutionGeom, ResolutionView, Span};
use crate::codestream::markers::{PocVolume, Progression, Rect, Siz, SizView};
use crate::codestream::{HeaderView, MainHeader};
use crate::error::{Fault, Result};
use crate::math::{ceil_div, div_ceil_u64, lemma_ceil_div, max_int, min_int, pow2_u64};
use vstd::arithmetic::power2::{
    lemma2_to64, lemma_pow2_adds, lemma_pow2_pos, lemma_pow2_strictly_increases, pow2,
};
use vstd::prelude::*;

verus! {

/// One packet: a layer of a precinct of a resolution of a component.
pub struct Packet {
    pub layer: int,
    pub res: int,
    pub comp: int,
    pub precinct: int,
}

/// Everything the packet walk needs: the components' sub-sampling, the tile's
/// rectangle on the reference grid, and the geometry of every resolution of every
/// component.
pub struct WalkView {
    pub siz: SizView,
    pub tile: Rect,
    pub geoms: Seq<Seq<ResolutionView>>,
}

/// The coordinate on a resolution's grid, at scale `s` to the reference grid.
pub open spec fn on_grid(v: int, s: int) -> int {
    ceil_div(v, s)
}

/// A precinct corner sits at `v`: on the lattice of precincts of `span` points,
/// or at the tile's leading edge `t0` where the tile begins inside a precinct of
/// `2^exp` samples.
pub open spec fn is_corner(v: int, t0: int, tr0: int, span: int, exp: nat) -> bool {
    v % span == 0 || (v == t0 && tr0 % (pow2(exp) as int) != 0)
}

impl WalkView {
    /// Component `comp` has a resolution `res`.
    pub open spec fn has(&self, comp: int, res: int) -> bool {
        0 <= comp < self.geoms.len() && 0 <= res < self.geoms[comp].len()
    }

    /// Precincts of resolution `res` of component `comp`.
    pub open spec fn precinct_count(&self, comp: int, res: int) -> int {
        (self.geoms[comp][res].precincts_wide * self.geoms[comp][res].precincts_high) as int
    }

    /// The packet's precinct exists.
    pub open spec fn holds(&self, p: Packet) -> bool {
        &&& 0 <= p.layer < u32::MAX
        &&& self.has(p.comp, p.res)
        &&& 0 <= p.precinct < self.precinct_count(p.comp, p.res)
    }

    /// Decomposition levels between resolution `res` and the tile-component.
    pub open spec fn level(&self, comp: int, res: int) -> nat {
        (self.geoms[comp].len() - 1 - res) as nat
    }

    /// Scale of resolution `res` to the reference grid, horizontally.
    pub open spec fn scale_x(&self, comp: int, res: int) -> int {
        self.siz.components[comp].x_sampling * pow2(self.level(comp, res))
    }

    /// Scale of resolution `res` to the reference grid, vertically.
    pub open spec fn scale_y(&self, comp: int, res: int) -> int {
        self.siz.components[comp].y_sampling * pow2(self.level(comp, res))
    }

    /// A precinct's width in reference-grid points.
    pub open spec fn span_x(&self, comp: int, res: int) -> int {
        self.siz.components[comp].x_sampling * pow2(
            self.geoms[comp][res].ppx + self.level(comp, res),
        )
    }

    /// A precinct's height in reference-grid points.
    pub open spec fn span_y(&self, comp: int, res: int) -> int {
        self.siz.components[comp].y_sampling * pow2(
            self.geoms[comp][res].ppy + self.level(comp, res),
        )
    }

    /// Column of the precinct grid that reference-grid column `x` lies in.
    pub open spec fn column_at(&self, comp: int, res: int, x: int) -> int {
        let s = self.scale_x(comp, res);
        let cell = pow2(self.geoms[comp][res].ppx) as int;
        on_grid(x, s) / cell - on_grid(self.tile.x0 as int, s) / cell
    }

    /// Row of the precinct grid that reference-grid row `y` lies in.
    pub open spec fn row_at(&self, comp: int, res: int, y: int) -> int {
        let s = self.scale_y(comp, res);
        let cell = pow2(self.geoms[comp][res].ppy) as int;
        on_grid(y, s) / cell - on_grid(self.tile.y0 as int, s) / cell
    }

    /// A precinct of `(comp, res)` starts at reference-grid column `x`.
    pub open spec fn starts_x(&self, comp: int, res: int, x: int) -> bool {
        is_corner(
            x,
            self.tile.x0 as int,
            on_grid(self.tile.x0 as int, self.scale_x(comp, res)),
            self.span_x(comp, res),
            self.geoms[comp][res].ppx,
        )
    }

    /// A precinct of `(comp, res)` starts at reference-grid row `y`.
    pub open spec fn starts_y(&self, comp: int, res: int, y: int) -> bool {
        is_corner(
            y,
            self.tile.y0 as int,
            on_grid(self.tile.y0 as int, self.scale_y(comp, res)),
            self.span_y(comp, res),
            self.geoms[comp][res].ppy,
        )
    }

    /// The precinct of `(comp, res)` whose top-left corner sits at the
    /// reference-grid point `(x, y)`.
    pub open spec fn precinct_at(&self, comp: int, res: int, x: int, y: int) -> Option<int> {
        if self.precinct_count(comp, res) > 0 && self.starts_x(comp, res, x) && self.starts_y(
            comp,
            res,
            y,
        ) {
            Some(
                self.row_at(comp, res, y) * self.geoms[comp][res].precincts_wide + self.column_at(
                    comp,
                    res,
                    x,
                ),
            )
        } else {
            None
        }
    }

    /// The geometry is that of the tile: every resolution's precinct grid covers
    /// the tile's rectangle on its grid.
    pub open spec fn wf(&self) -> bool {
        &&& self.geoms.len() <= self.siz.components.len()
        &&& forall|c: int|
            0 <= c < self.geoms.len() ==> {
                &&& 1 <= (#[trigger] self.geoms[c]).len() <= 33
                &&& self.siz.has_component(c)
            }
        &&& forall|c: int, r: int| self.has(c, r) ==> self.grid_fits(c, r)
    }

    /// [`wf`](Self::wf) of one resolution.
    pub open spec fn grid_fits(&self, c: int, r: int) -> bool {
        let g = self.geoms[c][r];
        let x = Span {
            lo: on_grid(self.tile.x0 as int, self.scale_x(c, r)),
            hi: on_grid(self.tile.x1 as int, self.scale_x(c, r)),
        };
        let y = Span {
            lo: on_grid(self.tile.y0 as int, self.scale_y(c, r)),
            hi: on_grid(self.tile.y1 as int, self.scale_y(c, r)),
        };
        &&& g.ppx <= 15
        &&& g.ppy <= 15
        &&& g.precincts_wide == cells(x, pow2(g.ppx) as int)
        &&& g.precincts_high == cells(y, pow2(g.ppy) as int)
        &&& g.precincts_wide * g.precincts_high <= usize::MAX
    }
}

/// The finer of a step and a span, if the span lies on the 32-bit reference grid.
pub open spec fn finer(step: Option<int>, span: int) -> Option<int> {
    if span > u32::MAX {
        step
    } else {
        match step {
            Some(s) => Some(min_int(s, span)),
            None => Some(span),
        }
    }
}

impl WalkView {
    /// The finest precinct width of the first `n` resolutions of component `comp`,
    /// and `step`.
    pub open spec fn comp_step_x(&self, step: Option<int>, comp: int, n: nat) -> Option<int>
        decreases n,
    {
        if n == 0 {
            step
        } else {
            finer(self.comp_step_x(step, comp, (n - 1) as nat), self.span_x(comp, n - 1))
        }
    }

    /// The finest precinct height of the first `n` resolutions of component
    /// `comp`, and `step`.
    pub open spec fn comp_step_y(&self, step: Option<int>, comp: int, n: nat) -> Option<int>
        decreases n,
    {
        if n == 0 {
            step
        } else {
            finer(self.comp_step_y(step, comp, (n - 1) as nat), self.span_y(comp, n - 1))
        }
    }

    /// The finest precinct width of the first `n` components.
    pub open spec fn all_step_x(&self, n: nat) -> Option<int>
        decreases n,
    {
        if n == 0 {
            None
        } else {
            self.comp_step_x(self.all_step_x((n - 1) as nat), n - 1, self.geoms[n - 1].len())
        }
    }

    /// The finest precinct height of the first `n` components.
    pub open spec fn all_step_y(&self, n: nat) -> Option<int>
        decreases n,
    {
        if n == 0 {
            None
        } else {
            self.comp_step_y(self.all_step_y((n - 1) as nat), n - 1, self.geoms[n - 1].len())
        }
    }

    /// The step of a horizontal sweep: over one component's resolutions where the
    /// component is the outer axis, over all of them otherwise.
    pub open spec fn sweep_step_x(&self, order: Progression, comp: int) -> Option<int> {
        if order == Progression::Cprl {
            self.comp_step_x(None, comp, self.geoms[comp].len())
        } else {
            self.all_step_x(self.geoms.len())
        }
    }

    /// The step of a vertical sweep.
    pub open spec fn sweep_step_y(&self, order: Progression, comp: int) -> Option<int> {
        if order == Progression::Cprl {
            self.comp_step_y(None, comp, self.geoms[comp].len())
        } else {
            self.all_step_y(self.geoms.len())
        }
    }
}

/// One progression volume: an order over a sub-range of the layer, resolution and
/// component axes.
#[derive(Debug, Clone, Copy, PartialEq, Eq, Structural)]
pub struct Volume {
    pub progression: Progression,
    /// Layers `0..layers`.
    pub layers: u32,
    pub res_start: usize,
    pub res_end: usize,
    pub comp_start: usize,
    pub comp_end: usize,
}

/// An axis that an order nests.
#[derive(Debug, Clone, Copy, PartialEq, Eq, Structural)]
pub enum Axis {
    Layer,
    Res,
    Comp,
    /// Rows of the reference grid.
    Row,
    /// Columns of the reference grid.
    Col,
    /// A resolution's precincts, or the one that starts at the swept point.
    Precinct,
}

/// The order's axes, outermost first.
pub open spec fn axes_of(order: Progression) -> Seq<Axis> {
    match order {
        Progression::Lrcp => seq![Axis::Layer, Axis::Res, Axis::Comp, Axis::Precinct],
        Progression::Rlcp => seq![Axis::Res, Axis::Layer, Axis::Comp, Axis::Precinct],
        Progression::Rpcl => seq![
            Axis::Res,
            Axis::Row,
            Axis::Col,
            Axis::Comp,
            Axis::Precinct,
            Axis::Layer,
        ],
        Progression::Pcrl => seq![
            Axis::Row,
            Axis::Col,
            Axis::Comp,
            Axis::Res,
            Axis::Precinct,
            Axis::Layer,
        ],
        Progression::Cprl => seq![
            Axis::Comp,
            Axis::Row,
            Axis::Col,
            Axis::Res,
            Axis::Precinct,
            Axis::Layer,
        ],
    }
}

/// The order sweeps the reference grid.
pub open spec fn is_positional(order: Progression) -> bool {
    order == Progression::Rpcl || order == Progression::Pcrl || order == Progression::Cprl
}

/// The values of the axes that are fixed so far.
pub struct At {
    pub layer: int,
    pub res: int,
    pub comp: int,
    pub precinct: int,
    pub x: int,
    pub y: int,
}

impl At {
    /// One axis takes a value.
    pub open spec fn set(self, axis: Axis, v: int) -> At {
        match axis {
            Axis::Layer => At { layer: v, ..self },
            Axis::Res => At { res: v, ..self },
            Axis::Comp => At { comp: v, ..self },
            Axis::Row => At { y: v, ..self },
            Axis::Col => At { x: v, ..self },
            Axis::Precinct => At { precinct: v, ..self },
        }
    }

    /// The packet at these values.
    pub open spec fn packet(self) -> Packet {
        Packet { layer: self.layer, res: self.res, comp: self.comp, precinct: self.precinct }
    }

    /// No axis is fixed.
    pub open spec fn origin() -> At {
        At { layer: 0, res: 0, comp: 0, precinct: 0, x: 0, y: 0 }
    }
}

/// The values of an axis: from `start`, the multiples of `step` after it, up to
/// `end`. With a step of 1 that is every value.
pub struct Range {
    pub start: int,
    pub end: int,
    pub step: int,
}

/// No values.
pub open spec fn no_values() -> Range {
    Range { start: 0, end: 0, step: 1 }
}

/// The next multiple of `step` after `v`.
pub open spec fn next_value(v: int, step: int) -> int {
    v + step - v % step
}

/// The values of `axis` once the axes outside it are fixed.
pub open spec fn axis_range(w: WalkView, v: Volume, axis: Axis, at: At) -> Range {
    match axis {
        Axis::Layer => Range { start: 0, end: v.layers as int, step: 1 },
        Axis::Res => Range { start: v.res_start as int, end: v.res_end as int, step: 1 },
        Axis::Comp => Range { start: v.comp_start as int, end: v.comp_end as int, step: 1 },
        Axis::Row => match w.sweep_step_y(v.progression, at.comp) {
            Some(step) => Range { start: w.tile.y0 as int, end: w.tile.y1 as int, step },
            None => no_values(),
        },
        Axis::Col => match w.sweep_step_x(v.progression, at.comp) {
            Some(step) => Range { start: w.tile.x0 as int, end: w.tile.x1 as int, step },
            None => no_values(),
        },
        Axis::Precinct => if !w.has(at.comp, at.res) {
            no_values()
        } else if is_positional(v.progression) {
            match w.precinct_at(at.comp, at.res, at.x, at.y) {
                Some(p) => Range { start: p, end: p + 1, step: 1 },
                None => no_values(),
            }
        } else {
            Range { start: 0, end: w.precinct_count(at.comp, at.res), step: 1 }
        },
    }
}

/// The packets of a nest of axes from axis `k` inward, the axes outside it fixed
/// at `at`.
pub open spec fn nest(w: WalkView, v: Volume, axes: Seq<Axis>, k: nat, at: At) -> Seq<Packet>
    decreases axes.len() - k, 1int, 0int,
{
    if k >= axes.len() {
        seq![at.packet()]
    } else {
        let r = axis_range(w, v, axes[k as int], at);
        nest_from(w, v, axes, k, at, r.start, r.end, r.step)
    }
}

/// The packets of the values of axis `k` from `value` on.
pub open spec fn nest_from(
    w: WalkView,
    v: Volume,
    axes: Seq<Axis>,
    k: nat,
    at: At,
    value: int,
    end: int,
    step: int,
) -> Seq<Packet>
    decreases axes.len() - k, 0int, max_int(0, end - value),
{
    if k >= axes.len() || value >= end || step < 1 {
        Seq::empty()
    } else {
        proof {
            vstd::arithmetic::div_mod::lemma_mod_bound(value, step);
        }
        nest(w, v, axes, k + 1, at.set(axes[k as int], value)) + nest_from(
            w,
            v,
            axes,
            k,
            at,
            next_value(value, step),
            end,
            step,
        )
    }
}

/// The packets of one volume, in order.
pub open spec fn volume_packets(w: WalkView, v: Volume) -> Seq<Packet> {
    nest(w, v, axes_of(v.progression), 0, At::origin())
}

/// What a packet walk hands its packets to.
pub trait PacketSink: Sized {
    /// The sink's state, mathematically.
    type Model;

    /// The sink's state.
    spec fn model(&self) -> Self::Model;

    /// The sink is well formed.
    spec fn inv(&self) -> bool;

    /// The sink can take the packet.
    spec fn accepts(&self, p: Packet) -> bool;

    /// The state after a packet, or the error that it ends the walk with.
    spec fn step(m: Self::Model, p: Packet) -> core::result::Result<Self::Model, Fault>;

    /// Take one packet.
    fn visit(&mut self, layer: u32, res: usize, comp: usize, precinct: usize) -> (r: Result<()>)
        requires
            old(self).inv(),
            old(self).accepts(packet_of(layer, res, comp, precinct)),
        ensures
            match r {
                Ok(_) => {
                    &&& final(self).inv()
                    &&& Self::step(old(self).model(), packet_of(layer, res, comp, precinct)) == Ok::<
                        Self::Model,
                        Fault,
                    >(final(self).model())
                    &&& forall|q: Packet| old(self).accepts(q) ==> #[trigger] final(self).accepts(q)
                },
                Err(e) => Self::step(old(self).model(), packet_of(layer, res, comp, precinct))
                    == Err::<Self::Model, Fault>(e@),
            },
    ;
}

/// The packet of four executable values.
pub open spec fn packet_of(layer: u32, res: usize, comp: usize, precinct: usize) -> Packet {
    Packet { layer: layer as int, res: res as int, comp: comp as int, precinct: precinct as int }
}

/// A walk's state: the sink's, and the packets already emitted where a packet
/// that is reached twice is emitted once.
pub struct Progress<M> {
    pub model: M,
    pub seen: Option<Set<Packet>>,
}

/// The walk reaches one packet.
pub open spec fn reach<S: PacketSink>(p: Progress<S::Model>, packet: Packet) -> core::result::Result<
    Progress<S::Model>,
    Fault,
> {
    match p.seen {
        Some(seen) if seen.contains(packet) => Ok(p),
        _ => match S::step(p.model, packet) {
            Ok(model) => Ok(
                Progress {
                    model,
                    seen: match p.seen {
                        Some(seen) => Some(seen.insert(packet)),
                        None => None,
                    },
                },
            ),
            Err(e) => Err(e),
        },
    }
}

/// The walk reaches a sequence of packets.
pub open spec fn run<S: PacketSink>(p: Progress<S::Model>, packets: Seq<Packet>) -> core::result::Result<
    Progress<S::Model>,
    Fault,
>
    decreases packets.len(),
{
    if packets.len() == 0 {
        Ok(p)
    } else {
        match reach::<S>(p, packets[0]) {
            Ok(next) => run::<S>(next, packets.drop_first()),
            Err(e) => Err(e),
        }
    }
}

/// Reaching two sequences in a row is reaching their concatenation.
pub proof fn lemma_run_concat<S: PacketSink>(
    p: Progress<S::Model>,
    a: Seq<Packet>,
    b: Seq<Packet>,
)
    ensures
        run::<S>(p, a + b) == match run::<S>(p, a) {
            Ok(next) => run::<S>(next, b),
            Err(e) => Err(e),
        },
    decreases a.len(),
{
    if a.len() == 0 {
        assert(a + b =~= b);
    } else {
        assert((a + b)[0] == a[0]);
        assert((a + b).drop_first() =~= a.drop_first() + b);
        match reach::<S>(p, a[0]) {
            Ok(next) => {
                lemma_run_concat::<S>(next, a.drop_first(), b);
            },
            Err(_) => {},
        }
    }
}

/// The packets that a walk has emitted: per component, resolution and precinct,
/// a mark for each layer. An inactive set records nothing.
pub struct Seen {
    pub active: bool,
    pub marks: Vec<Vec<Vec<Vec<bool>>>>,
}

impl Seen {
    /// The packet is marked.
    pub open spec fn marked(&self, p: Packet) -> bool {
        &&& 0 <= p.comp < self.marks@.len()
        &&& 0 <= p.res < self.marks@[p.comp]@.len()
        &&& 0 <= p.precinct < self.marks@[p.comp]@[p.res]@.len()
        &&& 0 <= p.layer < self.marks@[p.comp]@[p.res]@[p.precinct]@.len()
        &&& self.marks@[p.comp]@[p.res]@[p.precinct]@[p.layer]
    }

    /// The marked packets, if any are recorded.
    pub open spec fn set(&self) -> Option<Set<Packet>> {
        if self.active {
            Some(Set::new(|p: Packet| self.marked(p)))
        } else {
            None
        }
    }

    /// An active set has room for the packet's precinct.
    pub open spec fn covers(&self, p: Packet) -> bool {
        self.active ==> {
            &&& 0 <= p.comp < self.marks@.len()
            &&& 0 <= p.res < self.marks@[p.comp]@.len()
            &&& 0 <= p.precinct < self.marks@[p.comp]@[p.res]@.len()
        }
    }

    /// Whether the packet has been emitted.
    fn contains(&self, layer: u32, res: usize, comp: usize, precinct: usize) -> (r: bool)
        requires
            self.covers(packet_of(layer, res, comp, precinct)),
        ensures
            r == match self.set() {
                Some(s) => s.contains(packet_of(layer, res, comp, precinct)),
                None => false,
            },
    {
        if !self.active {
            return false;
        }
        let layers: &Vec<bool> = &self.marks[comp][res][precinct];
        (layer as usize) < layers.len() && layers[layer as usize]
    }

    /// Record that the packet has been emitted.
    fn insert(&mut self, layer: u32, res: usize, comp: usize, precinct: usize)
        requires
            old(self).covers(packet_of(layer, res, comp, precinct)),
            layer < u32::MAX,
        ensures
            final(self).set() == match old(self).set() {
                Some(s) => Some(s.insert(packet_of(layer, res, comp, precinct))),
                None => None,
            },
            forall|q: Packet| old(self).covers(q) ==> #[trigger] final(self).covers(q),
    {
        if !self.active {
            return;
        }
        let ghost before = *self;
        let ghost p = packet_of(layer, res, comp, precinct);
        let mut layers: Vec<bool> = Vec::new();
        std::mem::swap(&mut layers, &mut self.marks[comp][res][precinct]);
        let ghost kept = layers@;
        assert(kept == before.marks@[comp as int]@[res as int]@[precinct as int]@);
        while layers.len() < layer as usize + 1
            invariant
                layers@.len() >= kept.len(),
                layer < u32::MAX,
                forall|i: int| 0 <= i < kept.len() ==> #[trigger] layers@[i] == kept[i],
                forall|i: int| kept.len() <= i < layers@.len() ==> !#[trigger] layers@[i],
            decreases layer + 1 - layers@.len(),
        {
            layers.push(false);
        }
        layers.set(layer as usize, true);
        let ghost after = layers@;
        std::mem::swap(&mut layers, &mut self.marks[comp][res][precinct]);
        proof {
            assert(self.marks@[comp as int]@[res as int]@[precinct as int]@ == after);
            assert forall|q: Packet| #[trigger] self.marked(q) == (before.marked(q) || q == p) by {
                if q.comp == p.comp && q.res == p.res && q.precinct == p.precinct {
                    if 0 <= q.layer < after.len() {
                        if q.layer == layer {
                            assert(q == p);
                        }
                    }
                }
            }
            assert(self.set().unwrap() =~= before.set().unwrap().insert(p));
        }
    }
}

/// Everything the packet walk needs beyond the order itself.
pub struct PacketWalk<'a> {
    pub siz: &'a Siz,
    pub tile: Rect,
    pub geoms: &'a Vec<Vec<ResolutionGeom>>,
}

/// Every component's resolutions.
pub open spec fn geoms_views(s: Seq<Vec<ResolutionGeom>>) -> Seq<Seq<ResolutionView>> {
    Seq::new(s.len(), |i: int| resolution_views(s[i]@))
}

impl<'a> View for PacketWalk<'a> {
    type V = WalkView;

    open spec fn view(&self) -> WalkView {
        WalkView { siz: self.siz@, tile: self.tile, geoms: geoms_views(self.geoms@) }
    }
}

/// A precinct that starts inside the tile is one of the resolution's.
pub proof fn lemma_axis_in_grid(v: int, t0: int, t1: int, s: int, exp: nat)
    requires
        s > 0,
        0 <= t0 <= v < t1,
        cells(Span { lo: ceil_div(t0, s), hi: ceil_div(t1, s) }, pow2(exp) as int) > 0,
        is_corner(v, t0, ceil_div(t0, s), s * pow2(exp), exp),
    ensures
        0 <= ceil_div(v, s) / (pow2(exp) as int) - ceil_div(t0, s) / (pow2(exp) as int) < cells(
            Span { lo: ceil_div(t0, s), hi: ceil_div(t1, s) },
            pow2(exp) as int,
        ),
{
    let cell = pow2(exp) as int;
    lemma_pow2_pos(exp);
    let tr0 = ceil_div(t0, s);
    let tr1 = ceil_div(t1, s);
    lemma_ceil_div(t0, s);
    lemma_ceil_div(t1, s);
    lemma_ceil_div(tr1, cell);
    vstd::arithmetic::div_mod::lemma_fundamental_div_mod(tr0, cell);
    vstd::arithmetic::div_mod::lemma_mod_bound(tr0, cell);
    let a = tr0 / cell;
    let b = ceil_div(tr1, cell);
    let span = s * cell;
    assert(span > 0) by (nonlinear_arith)
        requires
            s > 0,
            cell > 0,
            span == s * cell,
    ;
    if v % span == 0 {
        let k = v / span;
        vstd::arithmetic::div_mod::lemma_fundamental_div_mod(v, span);
        assert(v == s * (k * cell)) by (nonlinear_arith)
            requires
                v == span * k,
                span == s * cell,
        ;
        let m = k * cell;
        assert(s * (m - 1) < v) by (nonlinear_arith)
            requires
                v == s * m,
                s > 0,
        ;
        crate::math::lemma_ceil_div_unique(v, s, m);
        vstd::arithmetic::div_mod::lemma_div_multiples_vanish(k, cell);
        assert(cell * k == m) by (nonlinear_arith)
            requires
                m == k * cell,
        ;
        assert(m / cell == k);
        assert(m >= tr0) by (nonlinear_arith)
            requires
                s * (tr0 - 1) < t0,
                t0 <= v,
                v == s * m,
                s > 0,
        ;
        assert(m < tr1) by (nonlinear_arith)
            requires
                v == s * m,
                v < t1,
                t1 <= s * tr1,
                s > 0,
        ;
        assert(k >= a) by (nonlinear_arith)
            requires
                m == k * cell,
                m >= tr0,
                tr0 >= cell * a,
                cell > 0,
        ;
        assert(k < b) by (nonlinear_arith)
            requires
                m == k * cell,
                m < tr1,
                tr1 <= cell * b,
                cell > 0,
        ;
    }
}

/// A precinct's span is its resolution's scale times its extent there.
pub proof fn lemma_span_scale(w: WalkView, comp: int, res: int)
    requires
        w.has(comp, res),
    ensures
        w.span_x(comp, res) == w.scale_x(comp, res) * pow2(w.geoms[comp][res].ppx),
        w.span_y(comp, res) == w.scale_y(comp, res) * pow2(w.geoms[comp][res].ppy),
{
    let level = w.level(comp, res);
    let g = w.geoms[comp][res];
    let dx = w.siz.components[comp].x_sampling as int;
    let dy = w.siz.components[comp].y_sampling as int;
    lemma_pow2_adds(g.ppx, level);
    lemma_pow2_adds(g.ppy, level);
    let (a, b, c) = (pow2(g.ppx) as int, pow2(g.ppy) as int, pow2(level) as int);
    assert(dx * (a * c) == (dx * c) * a) by (nonlinear_arith);
    assert(dy * (b * c) == (dy * c) * b) by (nonlinear_arith);
}

/// The precinct that starts at a point of the tile is one of the resolution's.
pub proof fn lemma_precinct_in_grid(w: WalkView, comp: int, res: int, x: int, y: int)
    requires
        w.wf(),
        w.has(comp, res),
        w.tile.x0 <= x < w.tile.x1,
        w.tile.y0 <= y < w.tile.y1,
        w.precinct_at(comp, res, x, y) is Some,
    ensures
        0 <= w.precinct_at(comp, res, x, y).unwrap() < w.precinct_count(comp, res),
        0 <= w.column_at(comp, res, x) < w.geoms[comp][res].precincts_wide,
        0 <= w.row_at(comp, res, y) < w.geoms[comp][res].precincts_high,
{
    assert(w.grid_fits(comp, res));
    let g = w.geoms[comp][res];
    lemma_span_scale(w, comp, res);
    lemma_pow2_pos(w.level(comp, res));
    let t = w.geoms[comp];
    let dx = w.siz.components[comp].x_sampling as int;
    let dy = w.siz.components[comp].y_sampling as int;
    let p = pow2(w.level(comp, res)) as int;
    assert(dx * p > 0 && dy * p > 0) by (nonlinear_arith)
        requires
            dx > 0,
            dy > 0,
            p > 0,
    ;
    assert(g.precincts_wide > 0 && g.precincts_high > 0) by (nonlinear_arith)
        requires
            g.precincts_wide * g.precincts_high > 0,
            g.precincts_wide >= 0,
            g.precincts_high >= 0,
    ;
    lemma_axis_in_grid(x, w.tile.x0 as int, w.tile.x1 as int, w.scale_x(comp, res), g.ppx);
    lemma_axis_in_grid(y, w.tile.y0 as int, w.tile.y1 as int, w.scale_y(comp, res), g.ppy);
    crate::math::lemma_index_bound(
        w.column_at(comp, res, x),
        w.row_at(comp, res, y),
        g.precincts_wide as int,
        g.precincts_high as int,
    );
}

impl<'a> PacketWalk<'a> {
    /// Whether component `comp` has a resolution `res`.
    fn has(&self, comp: usize, res: usize) -> (r: bool)
        ensures
            r == self@.has(comp as int, res as int),
    {
        comp < self.geoms.len() && res < self.geoms[comp].len()
    }

    /// The scale of a resolution to the reference grid and its precincts' span
    /// there, horizontally and vertically.
    fn scales(&self, comp: usize, res: usize) -> (r: (u64, u64, u64, u64))
        requires
            self@.wf(),
            self@.has(comp as int, res as int),
        ensures
            r.0 == self@.scale_x(comp as int, res as int),
            r.1 == self@.scale_y(comp as int, res as int),
            r.2 == self@.span_x(comp as int, res as int),
            r.3 == self@.span_y(comp as int, res as int),
            0 < r.0,
            0 < r.1,
            0 < r.2,
            0 < r.3,
    {
        let geoms: &Vec<ResolutionGeom> = &self.geoms[comp];
        let geom: &ResolutionGeom = &geoms[res];
        let level: u32 = (geoms.len() - 1 - res) as u32;
        let dx: u64 = self.siz.components[comp].x_sampling as u64;
        let dy: u64 = self.siz.components[comp].y_sampling as u64;
        proof {
            assert(self@.grid_fits(comp as int, res as int));
            let t = self@.geoms[comp as int];
            assert(self@.geoms[comp as int][res as int] == geom@);
            lemma_small_span(dx as int, level as nat);
            lemma_small_span(dy as int, level as nat);
            lemma_small_span(dx as int, (level + geom.ppx) as nat);
            lemma_small_span(dy as int, (level + geom.ppy) as nat);
        }
        (
            dx * pow2_u64(level),
            dy * pow2_u64(level),
            dx * pow2_u64(level + geom.ppx),
            dy * pow2_u64(level + geom.ppy),
        )
    }

    /// The precinct of `(comp, res)` whose top-left corner sits at the
    /// reference-grid point `(x, y)` of the tile, if one starts there.
    pub fn precinct_at(&self, comp: usize, res: usize, x: u64, y: u64) -> (p: Option<usize>)
        requires
            self@.wf(),
            self@.has(comp as int, res as int),
            self@.tile.x0 <= x < self@.tile.x1,
            self@.tile.y0 <= y < self@.tile.y1,
        ensures
            match p {
                Some(i) => self@.precinct_at(comp as int, res as int, x as int, y as int) == Some(
                    i as int,
                ),
                None => self@.precinct_at(comp as int, res as int, x as int, y as int) is None,
            },
    {
        let geom: &ResolutionGeom = &self.geoms[comp][res];
        proof {
            assert(self@.grid_fits(comp as int, res as int));
            assert(self@.geoms[comp as int][res as int] == geom@);
        }
        if geom.precinct_count() == 0 {
            return None;
        }
        let (sx, sy, px, py): (u64, u64, u64, u64) = self.scales(comp, res);
        let cell_x: u64 = pow2_u64(geom.ppx);
        let cell_y: u64 = pow2_u64(geom.ppy);
        let tx0: u64 = self.tile.x0 as u64;
        let ty0: u64 = self.tile.y0 as u64;
        let trx0: u64 = div_ceil_u64(tx0, sx);
        let try0: u64 = div_ceil_u64(ty0, sy);
        let on_row: bool = y % py == 0 || (y == ty0 && try0 % cell_y != 0);
        let on_col: bool = x % px == 0 || (x == tx0 && trx0 % cell_x != 0);
        if !on_row || !on_col {
            return None;
        }
        proof {
            lemma_precinct_in_grid(self@, comp as int, res as int, x as int, y as int);
            crate::math::lemma_index_bound(
                self@.column_at(comp as int, res as int, x as int),
                self@.row_at(comp as int, res as int, y as int),
                geom@.precincts_wide as int,
                geom@.precincts_high as int,
            );
        }
        let i: u64 = div_ceil_u64(x, sx) / cell_x - trx0 / cell_x;
        let j: u64 = div_ceil_u64(y, sy) / cell_y - try0 / cell_y;
        Some(j as usize * geom.precincts_wide + i as usize)
    }
}

/// A sub-sampled power of two that a precinct can span fits in `u64`.
proof fn lemma_small_span(d: int, e: nat)
    requires
        0 < d <= 255,
        e <= 47,
    ensures
        0 < d * pow2(e) <= 255 * 0x8000_0000_0000,
{
    lemma2_to64();
    vstd::arithmetic::power2::lemma2_to64_rest();
    lemma_pow2_pos(e);
    if e < 47 {
        lemma_pow2_strictly_increases(e, 47);
    }
    let p = pow2(e) as int;
    assert(0 < d * p <= 255 * 0x8000_0000_0000) by (nonlinear_arith)
        requires
            0 < d <= 255,
            0 < p <= 0x8000_0000_0000,
    ;
}

/// The executable step stands for the mathematical one.
pub open spec fn step_is(step: Option<u64>, want: Option<int>) -> bool {
    match step {
        Some(v) => want == Some(v as int) && 0 < v <= u32::MAX,
        None => want is None,
    }
}

/// The finer of a step and a span.
fn finer_step(step: Option<u64>, span: u64, Ghost(want): Ghost<Option<int>>) -> (r: Option<u64>)
    requires
        step_is(step, want),
        span > 0,
    ensures
        step_is(r, finer(want, span as int)),
{
    if span > u32::MAX as u64 {
        return step;
    }
    match step {
        Some(s) => {
            if s <= span {
                Some(s)
            } else {
                Some(span)
            }
        },
        None => Some(span),
    }
}

impl<'a> PacketWalk<'a> {
    /// The sweep's steps over the resolutions of one component and those given.
    fn comp_steps(
        &self,
        comp: usize,
        step_x: Option<u64>,
        step_y: Option<u64>,
        Ghost(want_x): Ghost<Option<int>>,
        Ghost(want_y): Ghost<Option<int>>,
    ) -> (r: (Option<u64>, Option<u64>))
        requires
            self@.wf(),
            comp < self@.geoms.len(),
            step_is(step_x, want_x),
            step_is(step_y, want_y),
        ensures
            step_is(
                r.0,
                self@.comp_step_x(want_x, comp as int, self@.geoms[comp as int].len()),
            ),
            step_is(
                r.1,
                self@.comp_step_y(want_y, comp as int, self@.geoms[comp as int].len()),
            ),
    {
        let mut x: Option<u64> = step_x;
        let mut y: Option<u64> = step_y;
        let mut res: usize = 0;
        let count: usize = self.geoms[comp].len();
        while res < count
            invariant
                self@.wf(),
                comp < self@.geoms.len(),
                count == self@.geoms[comp as int].len(),
                res <= count,
                step_is(x, self@.comp_step_x(want_x, comp as int, res as nat)),
                step_is(y, self@.comp_step_y(want_y, comp as int, res as nat)),
            decreases count - res,
        {
            let (_sx, _sy, px, py): (u64, u64, u64, u64) = self.scales(comp, res);
            x = finer_step(x, px, Ghost(self@.comp_step_x(want_x, comp as int, res as nat)));
            y = finer_step(y, py, Ghost(self@.comp_step_y(want_y, comp as int, res as nat)));
            res = res + 1;
        }
        (x, y)
    }

    /// The sweep's steps over every resolution of every component.
    fn all_steps(&self) -> (r: (Option<u64>, Option<u64>))
        requires
            self@.wf(),
        ensures
            step_is(r.0, self@.all_step_x(self@.geoms.len())),
            step_is(r.1, self@.all_step_y(self@.geoms.len())),
    {
        let mut x: Option<u64> = None;
        let mut y: Option<u64> = None;
        let mut comp: usize = 0;
        while comp < self.geoms.len()
            invariant
                self@.wf(),
                comp <= self@.geoms.len(),
                self@.geoms.len() == self.geoms@.len(),
                step_is(x, self@.all_step_x(comp as nat)),
                step_is(y, self@.all_step_y(comp as nat)),
            decreases self@.geoms.len() - comp,
        {
            let (nx, ny): (Option<u64>, Option<u64>) = self.comp_steps(
                comp,
                x,
                y,
                Ghost(self@.all_step_x(comp as nat)),
                Ghost(self@.all_step_y(comp as nat)),
            );
            x = nx;
            y = ny;
            comp = comp + 1;
        }
        (x, y)
    }

    /// The steps of an order's sweep.
    fn sweep_steps(&self, order: Progression, comp: usize) -> (r: (Option<u64>, Option<u64>))
        requires
            self@.wf(),
            order == Progression::Cprl ==> comp < self@.geoms.len(),
        ensures
            step_is(r.0, self@.sweep_step_x(order, comp as int)),
            step_is(r.1, self@.sweep_step_y(order, comp as int)),
    {
        match order {
            Progression::Cprl => self.comp_steps(comp, None, None, Ghost(None), Ghost(None)),
            _ => self.all_steps(),
        }
    }
}

/// The values that the axes are fixed at.
#[derive(Debug, Clone, Copy)]
pub struct Cell {
    pub layer: u32,
    pub res: usize,
    pub comp: usize,
    pub precinct: usize,
    pub x: u64,
    pub y: u64,
}

impl View for Cell {
    type V = At;

    open spec fn view(&self) -> At {
        At {
            layer: self.layer as int,
            res: self.res as int,
            comp: self.comp as int,
            precinct: self.precinct as int,
            x: self.x as int,
            y: self.y as int,
        }
    }
}

/// The volume lies within the walk's components.
pub open spec fn volume_fits(w: WalkView, v: Volume) -> bool {
    &&& v.comp_start >= v.comp_end || v.comp_end <= w.geoms.len()
    &&& v.layers < u32::MAX
}

/// `axis` was fixed before position `k` of the order.
pub open spec fn fixed(axes: Seq<Axis>, k: nat, axis: Axis) -> bool {
    exists|i: int| 0 <= i < k && i < axes.len() && #[trigger] axes[i] == axis
}

/// Every axis fixed so far lies within its values.
pub open spec fn cell_fits(w: WalkView, v: Volume, axes: Seq<Axis>, k: nat, at: At) -> bool {
    &&& fixed(axes, k, Axis::Layer) ==> 0 <= at.layer < v.layers
    &&& fixed(axes, k, Axis::Comp) ==> 0 <= at.comp < w.geoms.len()
    &&& fixed(axes, k, Axis::Col) ==> w.tile.x0 <= at.x < w.tile.x1
    &&& fixed(axes, k, Axis::Row) ==> w.tile.y0 <= at.y < w.tile.y1
    &&& fixed(axes, k, Axis::Precinct) ==> w.has(at.comp, at.res) && 0 <= at.precinct
        < w.precinct_count(at.comp, at.res)
}

/// The sink, and the record of what it has been given, take every packet of the
/// walk.
pub open spec fn sink_ready<S: PacketSink>(sink: S, seen: Seen, w: WalkView) -> bool {
    &&& sink.inv()
    &&& forall|p: Packet| #[trigger] w.holds(p) ==> sink.accepts(p) && seen.covers(p)
}

/// The walk's state.
pub open spec fn progress<S: PacketSink>(sink: S, seen: Seen) -> Progress<S::Model> {
    Progress { model: sink.model(), seen: seen.set() }
}

/// The values of one axis.
fn axis_values(walk: &PacketWalk<'_>, v: &Volume, axis: Axis, at: &Cell, Ghost(axes): Ghost<
    Seq<Axis>,
>, Ghost(k): Ghost<nat>) -> (r: (u64, u64, u64))
    requires
        walk@.wf(),
        volume_fits(walk@, *v),
        axes == axes_of(v.progression),
        k < axes.len(),
        axis == axes[k as int],
        cell_fits(walk@, *v, axes, k, at@),
    ensures
        (Range { start: r.0 as int, end: r.1 as int, step: r.2 as int }) == axis_range(
            walk@,
            *v,
            axis,
            at@,
        ),
        0 < r.2 <= u32::MAX,
        axis == Axis::Row || axis == Axis::Col ==> r.1 <= u32::MAX,
        axis == Axis::Layer ==> r.1 <= u32::MAX,
        axis != Axis::Row && axis != Axis::Col && axis != Axis::Layer ==> r.1 <= usize::MAX,
        axis != Axis::Row && axis != Axis::Col ==> r.2 == 1,
        axis == Axis::Precinct && r.0 < r.1 ==> walk@.has(at@.comp, at@.res) && r.1
            <= walk@.precinct_count(at@.comp, at@.res),
{
    proof {
        lemma_axes_fixed(v.progression, k);
    }
    match axis {
        Axis::Layer => (0, v.layers as u64, 1),
        Axis::Res => (v.res_start as u64, v.res_end as u64, 1),
        Axis::Comp => (v.comp_start as u64, v.comp_end as u64, 1),
        Axis::Row => {
            let (_sx, sy): (Option<u64>, Option<u64>) = walk.sweep_steps(v.progression, at.comp);
            match sy {
                Some(step) => (walk.tile.y0 as u64, walk.tile.y1 as u64, step),
                None => (0, 0, 1),
            }
        },
        Axis::Col => {
            let (sx, _sy): (Option<u64>, Option<u64>) = walk.sweep_steps(v.progression, at.comp);
            match sx {
                Some(step) => (walk.tile.x0 as u64, walk.tile.x1 as u64, step),
                None => (0, 0, 1),
            }
        },
        Axis::Precinct => {
            if !walk.has(at.comp, at.res) {
                (0, 0, 1)
            } else {
                let positional: bool = match v.progression {
                    Progression::Lrcp | Progression::Rlcp => false,
                    _ => true,
                };
                proof {
                    assert(walk@.grid_fits(at@.comp, at@.res));
                }
                if positional {
                    match walk.precinct_at(at.comp, at.res, at.x, at.y) {
                        Some(p) => {
                            proof {
                                lemma_precinct_in_grid(walk@, at@.comp, at@.res, at@.x, at@.y);
                            }
                            (p as u64, p as u64 + 1, 1)
                        },
                        None => (0, 0, 1),
                    }
                } else {
                    let geom: &ResolutionGeom = &walk.geoms[at.comp][at.res];
                    assert(walk@.geoms[at@.comp][at@.res] == geom@);
                    (0, geom.precinct_count() as u64, 1)
                }
            }
        },
    }
}

/// What each order has fixed by the time it reaches an axis.
proof fn lemma_axes_fixed(order: Progression, k: nat)
    requires
        k < axes_of(order).len(),
    ensures
        axes_of(order)[k as int] == Axis::Precinct ==> fixed(axes_of(order), k, Axis::Comp)
            && fixed(axes_of(order), k, Axis::Res) && (is_positional(order) ==> fixed(
            axes_of(order),
            k,
            Axis::Row,
        ) && fixed(axes_of(order), k, Axis::Col)),
        order == Progression::Cprl && k > 0 ==> fixed(axes_of(order), k, Axis::Comp),
{
    let axes = axes_of(order);
    if k > 0 {
        assert(axes[0] == axes[0]);
    }
    if k > 1 {
        assert(axes[1] == axes[1]);
    }
    if k > 2 {
        assert(axes[2] == axes[2]);
    }
    if k > 3 {
        assert(axes[3] == axes[3]);
    }
}

/// The cell with one axis at `value`.
fn set_axis(at: &Cell, axis: Axis, value: u64) -> (r: Cell)
    requires
        axis == Axis::Layer ==> value <= u32::MAX,
        axis == Axis::Res || axis == Axis::Comp || axis == Axis::Precinct ==> value <= usize::MAX,
    ensures
        r@ == at@.set(axis, value as int),
{
    let mut r: Cell = *at;
    match axis {
        Axis::Layer => {
            r.layer = value as u32;
        },
        Axis::Res => {
            r.res = value as usize;
        },
        Axis::Comp => {
            r.comp = value as usize;
        },
        Axis::Row => {
            r.y = value;
        },
        Axis::Col => {
            r.x = value;
        },
        Axis::Precinct => {
            r.precinct = value as usize;
        },
    }
    r
}

/// Hand one packet to the sink, unless it has been emitted before.
fn emit<S: PacketSink>(sink: &mut S, seen: &mut Seen, at: &Cell, Ghost(w): Ghost<WalkView>) -> (r:
    Result<()>)
    requires
        sink_ready(*old(sink), *old(seen), w),
        w.holds(at@.packet()),
        at.layer < u32::MAX,
    ensures
        match r {
            Ok(_) => {
                &&& reach::<S>(progress(*old(sink), *old(seen)), at@.packet()) == Ok::<
                    Progress<S::Model>,
                    Fault,
                >(progress(*final(sink), *final(seen)))
                &&& sink_ready(*final(sink), *final(seen), w)
            },
            Err(e) => reach::<S>(progress(*old(sink), *old(seen)), at@.packet()) == Err::<
                Progress<S::Model>,
                Fault,
            >(e@),
        },
{
    if seen.contains(at.layer, at.res, at.comp, at.precinct) {
        return Ok(());
    }
    sink.visit(at.layer, at.res, at.comp, at.precinct)?;
    seen.insert(at.layer, at.res, at.comp, at.precinct);
    Ok(())
}

/// Fixing axis `k` keeps every fixed axis within its values.
proof fn lemma_cell_step(w: WalkView, v: Volume, k: nat, at: At, value: int)
    requires
        w.wf(),
        volume_fits(w, v),
        k < axes_of(v.progression).len(),
        cell_fits(w, v, axes_of(v.progression), k, at),
        ({
            let r = axis_range(w, v, axes_of(v.progression)[k as int], at);
            r.start <= value < r.end && (axes_of(v.progression)[k as int] == Axis::Precinct
                ==> w.has(at.comp, at.res) && 0 <= r.start && r.end <= w.precinct_count(
                at.comp,
                at.res,
            ))
        }),
    ensures
        cell_fits(
            w,
            v,
            axes_of(v.progression),
            k + 1,
            at.set(axes_of(v.progression)[k as int], value),
        ),
{
    let axes = axes_of(v.progression);
    let axis = axes[k as int];
    let next = at.set(axis, value);
    assert forall|a: Axis| a != axis && fixed(axes, k + 1, a) implies #[trigger] fixed(
        axes,
        k,
        a,
    ) by {
        let i = choose|i: int| 0 <= i < k + 1 && i < axes.len() && #[trigger] axes[i] == a;
        assert(axes[i] == a);
    }
    lemma_precinct_last(v.progression, k);
    assert(fixed(axes, k + 1, Axis::Precinct) ==> fixed(axes, k, Axis::Precinct) || axis
        == Axis::Precinct);
    if fixed(axes, k, Axis::Precinct) {
        assert(axis == Axis::Layer);
    }
}

/// Only the layer is nested inside the precinct.
proof fn lemma_precinct_last(order: Progression, k: nat)
    requires
        k < axes_of(order).len(),
    ensures
        fixed(axes_of(order), k, Axis::Precinct) ==> axes_of(order)[k as int] == Axis::Layer,
{
    let axes = axes_of(order);
    if fixed(axes, k, Axis::Precinct) {
        let i = choose|i: int| 0 <= i < k && i < axes.len() && #[trigger] axes[i] == Axis::Precinct;
        assert(axes[i] == Axis::Precinct);
    }
}

/// Every order fixes all of a packet's coordinates.
proof fn lemma_all_fixed(order: Progression)
    ensures
        fixed(axes_of(order), axes_of(order).len(), Axis::Layer),
        fixed(axes_of(order), axes_of(order).len(), Axis::Precinct),
{
    let axes = axes_of(order);
    assert(axes[0] == axes[0] && axes[3] == axes[3]);
    if is_positional(order) {
        assert(axes[4] == Axis::Precinct && axes[5] == Axis::Layer);
    } else {
        assert(axes[1] == axes[1]);
    }
}

/// Visit the packets of the order's axes from axis `k` inward.
fn visit_nest<S: PacketSink>(
    walk: &PacketWalk<'_>,
    v: &Volume,
    axes: &Vec<Axis>,
    k: usize,
    at: &Cell,
    sink: &mut S,
    seen: &mut Seen,
) -> (r: Result<()>)
    requires
        walk@.wf(),
        volume_fits(walk@, *v),
        axes@ == axes_of(v.progression),
        k <= axes@.len(),
        cell_fits(walk@, *v, axes@, k as nat, at@),
        sink_ready(*old(sink), *old(seen), walk@),
    ensures
        match r {
            Ok(_) => {
                &&& run::<S>(
                    progress(*old(sink), *old(seen)),
                    nest(walk@, *v, axes@, k as nat, at@),
                ) == Ok::<Progress<S::Model>, Fault>(progress(*final(sink), *final(seen)))
                &&& sink_ready(*final(sink), *final(seen), walk@)
            },
            Err(e) => run::<S>(
                progress(*old(sink), *old(seen)),
                nest(walk@, *v, axes@, k as nat, at@),
            ) == Err::<Progress<S::Model>, Fault>(e@),
        },
    decreases axes@.len() - k,
{
    let ghost start = progress(*sink, *seen);
    let ghost goal = run::<S>(start, nest(walk@, *v, axes@, k as nat, at@));
    if k >= axes.len() {
        proof {
            lemma_all_fixed(v.progression);
            assert(walk@.holds(at@.packet()));
            let one = seq![at@.packet()];
            assert(one.drop_first() =~= Seq::<Packet>::empty());
            reveal_with_fuel(run, 2);
        }
        return emit(sink, seen, at, Ghost(walk@));
    }
    let axis: Axis = axes[k];
    let (first, end, step): (u64, u64, u64) = axis_values(
        walk,
        v,
        axis,
        at,
        Ghost(axes@),
        Ghost(k as nat),
    );
    let mut value: u64 = first;
    while value < end
        invariant
            walk@.wf(),
            volume_fits(walk@, *v),
            axes@ == axes_of(v.progression),
            k < axes@.len(),
            axis == axes@[k as int],
            cell_fits(walk@, *v, axes@, k as nat, at@),
            sink_ready(*sink, *seen, walk@),
            first <= value,
            0 < step <= u32::MAX,
            axis_range(walk@, *v, axis, at@) == (Range {
                start: first as int,
                end: end as int,
                step: step as int,
            }),
            axis == Axis::Row || axis == Axis::Col ==> end <= u32::MAX,
            axis == Axis::Layer ==> end <= u32::MAX,
            axis != Axis::Row && axis != Axis::Col && axis != Axis::Layer ==> end <= usize::MAX,
            axis != Axis::Row && axis != Axis::Col ==> step == 1,
            axis == Axis::Precinct && first < end ==> walk@.has(at@.comp, at@.res) && end
                <= walk@.precinct_count(at@.comp, at@.res),
            run::<S>(
                progress(*sink, *seen),
                nest_from(
                    walk@,
                    *v,
                    axes@,
                    k as nat,
                    at@,
                    value as int,
                    end as int,
                    step as int,
                ),
            ) == goal,
            goal == run::<S>(
                progress(*old(sink), *old(seen)),
                nest(walk@, *v, axes@, k as nat, at@),
            ),
        decreases max_int(0, end - value),
    {
        proof {
            lemma_cell_step(walk@, *v, k as nat, at@, value as int);
            vstd::arithmetic::div_mod::lemma_mod_bound(value as int, step as int);
            lemma_run_concat::<S>(
                progress(*sink, *seen),
                nest(walk@, *v, axes@, k as nat + 1, at@.set(axis, value as int)),
                nest_from(
                    walk@,
                    *v,
                    axes@,
                    k as nat,
                    at@,
                    next_value(value as int, step as int),
                    end as int,
                    step as int,
                ),
            );
        }
        let next: Cell = set_axis(at, axis, value);
        visit_nest(walk, v, axes, k + 1, &next, sink, seen)?;
        value = value + (step - value % step);
    }
    Ok(())
}

/// The order's axes, outermost first.
fn order_axes(order: Progression) -> (axes: Vec<Axis>)
    ensures
        axes@ == axes_of(order),
{
    let axes: Vec<Axis> = match order {
        Progression::Lrcp => vec![Axis::Layer, Axis::Res, Axis::Comp, Axis::Precinct],
        Progression::Rlcp => vec![Axis::Res, Axis::Layer, Axis::Comp, Axis::Precinct],
        Progression::Rpcl => vec![
            Axis::Res,
            Axis::Row,
            Axis::Col,
            Axis::Comp,
            Axis::Precinct,
            Axis::Layer,
        ],
        Progression::Pcrl => vec![
            Axis::Row,
            Axis::Col,
            Axis::Comp,
            Axis::Res,
            Axis::Precinct,
            Axis::Layer,
        ],
        Progression::Cprl => vec![
            Axis::Comp,
            Axis::Row,
            Axis::Col,
            Axis::Res,
            Axis::Precinct,
            Axis::Layer,
        ],
    };
    assert(axes@ =~= axes_of(order));
    axes
}

/// Enumerate one progression volume, handing each of its packets to the sink.
fn run_order<S: PacketSink>(walk: &PacketWalk<'_>, v: &Volume, sink: &mut S, seen: &mut Seen) -> (r:
    Result<()>)
    requires
        walk@.wf(),
        volume_fits(walk@, *v),
        sink_ready(*old(sink), *old(seen), walk@),
    ensures
        match r {
            Ok(_) => {
                &&& run::<S>(progress(*old(sink), *old(seen)), volume_packets(walk@, *v)) == Ok::<
                    Progress<S::Model>,
                    Fault,
                >(progress(*final(sink), *final(seen)))
                &&& sink_ready(*final(sink), *final(seen), walk@)
            },
            Err(e) => run::<S>(progress(*old(sink), *old(seen)), volume_packets(walk@, *v)) == Err::<
                Progress<S::Model>,
                Fault,
            >(e@),
        },
{
    let axes: Vec<Axis> = order_axes(v.progression);
    let at = Cell { layer: 0, res: 0, comp: 0, precinct: 0, x: 0, y: 0 };
    assert(at@ == At::origin());
    visit_nest(walk, v, &axes, 0, &at, sink, seen)
}

/// The deepest component's resolution count.
pub open spec fn max_resolutions(w: WalkView, n: nat) -> int
    decreases n,
{
    if n == 0 {
        0
    } else {
        max_int(max_resolutions(w, (n - 1) as nat), w.geoms[n - 1].len() as int)
    }
}

/// The volume that spans every axis in the default order.
pub open spec fn whole_volume(w: WalkView, progression: Progression, layers: u16) -> Volume {
    Volume {
        progression,
        layers: layers as u32,
        res_start: 0,
        res_end: max_resolutions(w, w.geoms.len()) as usize,
        comp_start: 0,
        comp_end: w.geoms.len() as usize,
    }
}

/// A POC volume, its ends clamped to the axes.
pub open spec fn clamped_volume(w: WalkView, poc: PocVolume, layers: u16) -> Volume {
    Volume {
        progression: poc.progression,
        layers: min_int(poc.layer_end as int, layers as int) as u32,
        res_start: poc.res_start as usize,
        res_end: min_int(poc.res_end as int, max_resolutions(w, w.geoms.len())) as usize,
        comp_start: poc.comp_start as usize,
        comp_end: min_int(poc.comp_end as int, w.geoms.len() as int) as usize,
    }
}

/// The volumes that a header prescribes.
pub open spec fn volumes_of(h: HeaderView, w: WalkView) -> Seq<Volume> {
    if h.poc.len() == 0 {
        seq![whole_volume(w, h.cod.progression, h.cod.layers)]
    } else {
        Seq::new(h.poc.len(), |i: int| clamped_volume(w, h.poc[i], h.cod.layers))
    }
}

/// The packets of volumes `i` and later, in order.
pub open spec fn packets_from(w: WalkView, volumes: Seq<Volume>, i: int) -> Seq<Packet>
    decreases volumes.len() - i,
{
    if 0 <= i < volumes.len() {
        volume_packets(w, volumes[i]) + packets_from(w, volumes, i + 1)
    } else {
        Seq::empty()
    }
}

/// The walk that a header prescribes, from the sink's state `model`. Where there
/// are several volumes, a packet that more than one reaches is emitted once, by
/// the first.
pub open spec fn walk_spec<S: PacketSink>(
    h: HeaderView,
    w: WalkView,
    model: S::Model,
) -> core::result::Result<Progress<S::Model>, Fault> {
    let volumes = volumes_of(h, w);
    let seen = if volumes.len() == 1 { None } else { Some(Set::empty()) };
    run::<S>(Progress { model, seen }, packets_from(w, volumes, 0))
}

/// The deepest component's resolution count.
fn deepest(walk: &PacketWalk<'_>) -> (n: usize)
    requires
        walk@.wf(),
    ensures
        n == max_resolutions(walk@, walk@.geoms.len()),
        n <= 33,
{
    let mut n: usize = 0;
    let mut c: usize = 0;
    while c < walk.geoms.len()
        invariant
            walk@.wf(),
            c <= walk@.geoms.len(),
            walk@.geoms.len() == walk.geoms@.len(),
            n == max_resolutions(walk@, c as nat),
            n <= 33,
        decreases walk@.geoms.len() - c,
    {
        assert(walk@.geoms[c as int].len() == walk.geoms@[c as int]@.len());
        if walk.geoms[c].len() > n {
            n = walk.geoms[c].len();
        }
        c = c + 1;
    }
    n
}

/// The volumes that a header prescribes.
fn header_volumes(header: &MainHeader, walk: &PacketWalk<'_>) -> (volumes: Vec<Volume>)
    requires
        walk@.wf(),
    ensures
        volumes@ == volumes_of(header@, walk@),
        forall|i: int| 0 <= i < volumes@.len() ==> volume_fits(walk@, #[trigger] volumes@[i]),
{
    let components: usize = walk.geoms.len();
    let max_res: usize = deepest(walk);
    let mut volumes: Vec<Volume> = Vec::new();
    if header.poc.len() == 0 {
        volumes.push(
            Volume {
                progression: header.cod.progression,
                layers: header.cod.layers as u32,
                res_start: 0,
                res_end: max_res,
                comp_start: 0,
                comp_end: components,
            },
        );
        assert(volumes@ =~= volumes_of(header@, walk@));
        return volumes;
    }
    let mut i: usize = 0;
    while i < header.poc.len()
        invariant
            i <= header@.poc.len(),
            header@.poc == header.poc@,
            header@.cod.layers == header.cod.layers,
            components == walk@.geoms.len(),
            max_res == max_resolutions(walk@, walk@.geoms.len()),
            volumes@.len() == i,
            forall|j: int|
                0 <= j < i ==> #[trigger] volumes@[j] == clamped_volume(
                    walk@,
                    header@.poc[j],
                    header@.cod.layers,
                ),
        decreases header@.poc.len() - i,
    {
        let poc: PocVolume = header.poc[i];
        let layers: u16 = if poc.layer_end < header.cod.layers {
            poc.layer_end
        } else {
            header.cod.layers
        };
        let res_end: usize = if (poc.res_end as usize) < max_res {
            poc.res_end as usize
        } else {
            max_res
        };
        let comp_end: usize = if (poc.comp_end as usize) < components {
            poc.comp_end as usize
        } else {
            components
        };
        volumes.push(
            Volume {
                progression: poc.progression,
                layers: layers as u32,
                res_start: poc.res_start as usize,
                res_end,
                comp_start: poc.comp_start as usize,
                comp_end,
            },
        );
        i = i + 1;
    }
    assert(volumes@ =~= volumes_of(header@, walk@));
    volumes
}

impl Seen {
    /// A record of nothing.
    fn inactive() -> (s: Self)
        ensures
            s.set() == None::<Set<Packet>>,
            forall|p: Packet| #[trigger] s.covers(p),
    {
        Seen { active: false, marks: Vec::new() }
    }

    /// An empty record with room for every packet of the walk.
    fn empty(walk: &PacketWalk<'_>) -> (s: Self)
        requires
            walk@.wf(),
        ensures
            s.set() == Some(Set::<Packet>::empty()),
            forall|p: Packet| walk@.holds(p) ==> #[trigger] s.covers(p),
    {
        let mut marks: Vec<Vec<Vec<Vec<bool>>>> = Vec::new();
        while marks.len() < walk.geoms.len()
            invariant
                walk@.wf(),
                marks@.len() <= walk@.geoms.len(),
                walk@.geoms.len() == walk.geoms@.len(),
                forall|c: int|
                    0 <= c < marks@.len() ==> (#[trigger] marks@[c])@.len() == walk@.geoms[c].len(),
                forall|c: int, r: int|
                    0 <= c < marks@.len() && 0 <= r < marks@[c]@.len()
                        ==> (#[trigger] marks@[c]@[r])@.len() == walk@.precinct_count(c, r),
                forall|c: int, r: int, p: int|
                    0 <= c < marks@.len() && 0 <= r < marks@[c]@.len() && 0 <= p
                        < marks@[c]@[r]@.len() ==> (#[trigger] marks@[c]@[r]@[p])@.len() == 0,
            decreases walk@.geoms.len() - marks@.len(),
        {
            let c: usize = marks.len();
            let geoms: &Vec<ResolutionGeom> = &walk.geoms[c];
            assert(walk@.geoms[c as int].len() == geoms@.len());
            let mut levels: Vec<Vec<Vec<bool>>> = Vec::new();
            while levels.len() < geoms.len()
                invariant
                    walk@.wf(),
                    c < walk@.geoms.len(),
                    *geoms == walk.geoms@[c as int],
                    walk@.geoms[c as int].len() == geoms@.len(),
                    levels@.len() <= geoms@.len(),
                    forall|r: int|
                        0 <= r < levels@.len() ==> (#[trigger] levels@[r])@.len()
                            == walk@.precinct_count(c as int, r),
                    forall|r: int, p: int|
                        0 <= r < levels@.len() && 0 <= p < levels@[r]@.len()
                            ==> (#[trigger] levels@[r]@[p])@.len() == 0,
                decreases geoms@.len() - levels@.len(),
            {
                let r: usize = levels.len();
                proof {
                    assert(walk@.has(c as int, r as int));
                    assert(walk@.grid_fits(c as int, r as int));
                    assert(walk@.geoms[c as int][r as int] == geoms@[r as int]@);
                }
                let count: usize = geoms[r].precinct_count();
                let mut precincts: Vec<Vec<bool>> = Vec::new();
                while precincts.len() < count
                    invariant
                        precincts@.len() <= count,
                        forall|p: int|
                            0 <= p < precincts@.len() ==> (#[trigger] precincts@[p])@.len() == 0,
                    decreases count - precincts@.len(),
                {
                    precincts.push(Vec::new());
                }
                levels.push(precincts);
            }
            marks.push(levels);
        }
        let s = Seen { active: true, marks };
        assert(s.set().unwrap() =~= Set::<Packet>::empty());
        s
    }
}

/// Visit every packet of the tile in the header's order, handing each to the sink.
pub fn for_each_packet<S: PacketSink>(
    header: &MainHeader,
    walk: &PacketWalk<'_>,
    sink: &mut S,
) -> (r: Result<()>)
    requires
        walk@.wf(),
        old(sink).inv(),
        forall|p: Packet| #[trigger] walk@.holds(p) ==> old(sink).accepts(p),
    ensures
        match r {
            Ok(_) => walk_spec::<S>(header@, walk@, old(sink).model()) matches Ok(p) && p.model
                == final(sink).model() && final(sink).inv(),
            Err(e) => walk_spec::<S>(header@, walk@, old(sink).model()) == Err::<
                Progress<S::Model>,
                Fault,
            >(e@),
        },
{
    let volumes: Vec<Volume> = header_volumes(header, walk);
    let mut seen: Seen = if volumes.len() == 1 { Seen::inactive() } else { Seen::empty(walk) };
    let mut i: usize = 0;
    let ghost goal = walk_spec::<S>(header@, walk@, sink.model());
    while i < volumes.len()
        invariant
            i <= volumes@.len(),
            walk@.wf(),
            volumes@ == volumes_of(header@, walk@),
            forall|j: int| 0 <= j < volumes@.len() ==> volume_fits(walk@, #[trigger] volumes@[j]),
            sink_ready(*sink, seen, walk@),
            run::<S>(progress(*sink, seen), packets_from(walk@, volumes@, i as int)) == goal,
            goal == walk_spec::<S>(header@, walk@, old(sink).model()),
        decreases volumes@.len() - i,
    {
        proof {
            lemma_run_concat::<S>(
                progress(*sink, seen),
                volume_packets(walk@, volumes@[i as int]),
                packets_from(walk@, volumes@, i + 1),
            );
        }
        run_order(walk, &volumes[i], sink, &mut seen)?;
        i = i + 1;
    }
    Ok(())
}

} // verus!
