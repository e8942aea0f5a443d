//! The packets of one tile: its geometry, the walk over its packets, and the
//! coded segments that come out.

use super::geometry::{
    band_count, band_of, band_views, block_exponent, blocks_below, blocks_in, cells, clip,
    first_cell, geoms_spec, groups_of, header_legal, lemma_cells_bound, lemma_cells_within,
    lemma_grid_position, lemma_precincts_in, precinct_spec, precincts_below, resolution_geoms,
    resolution_span, resolution_spec, resolution_views, ResolutionGeom, ResolutionView, Span,
    MAX_CODE_BLOCKS, MAX_PRECINCTS,
};
use super::packet::{
    band_shape, fresh_state, packet_spec, parse_packet, precinct_shape, state_fits, state_views,
    states_fit, BandState, BandStateView, Delimiters, PacketStreams, StreamsView,
};
use super::progression::{
    for_each_packet, geoms_views, packet_of, walk_spec, Packet, PacketSink, PacketWalk, Progress,
    WalkView,
};
use super::{
    bands_fed, build_subbands, component_views, starved_text, subbands_spec, CodedData,
    ComponentCoded, Resolution, Subband, SubbandView,
};
use crate::codestream::markers::{CodingView, Rect};
use crate::codestream::{HeaderView, MainHeader, Tile, TileView};
use crate::error::{fault, Error, ErrorKind, Fault, Result};
use crate::math::lemma_ceil_div_twice;
use vstd::arithmetic::power2::{lemma_pow2_pos, pow2};
use crate::text::{decimal, decimal_text};
use vstd::prelude::*;

verus! {

/// The geometry of components `c` and later, within what is left of the tile's
/// allowances.
pub open spec fn all_geoms(
    h: HeaderView,
    tile: int,
    c: int,
    precinct_budget: int,
    block_budget: int,
) -> core::result::Result<Seq<Seq<ResolutionView>>, Fault>
    decreases h.siz.components.len() - c,
{
    if !(0 <= c < h.siz.components.len()) {
        Ok(Seq::empty())
    } else {
        match geoms_spec(h, tile, c, precinct_budget, block_budget) {
            Err(e) => Err(e),
            Ok(geoms) => {
                let tc = h.siz.tile_component_rect(tile, c).unwrap();
                let coding = h.components[c].coding;
                let count = coding.decomposition_levels as nat + 1;
                match all_geoms(
                    h,
                    tile,
                    c + 1,
                    precinct_budget - precincts_below(tc, coding, count),
                    block_budget - blocks_below(tc, coding, count, 0),
                ) {
                    Err(e) => Err(e),
                    Ok(rest) => Ok(seq![geoms] + rest),
                }
            },
        }
    }
}

/// The tile's packets while they are parsed: the streams, every band's state, the
/// next packet's index, and what stays fixed.
pub struct TileModel {
    pub streams: StreamsView,
    pub states: Seq<Seq<Seq<BandStateView>>>,
    pub index: u32,
    pub geoms: Seq<Seq<ResolutionView>>,
    pub styles: Seq<u8>,
    pub delimiters: Delimiters,
}

/// The model after one packet.
pub open spec fn tile_step(m: TileModel, p: Packet) -> core::result::Result<TileModel, Fault> {
    match packet_spec(
        m.streams,
        p.layer as u32,
        m.index,
        m.delimiters,
        m.styles[p.comp],
        m.geoms[p.comp][p.res].bands,
        p.precinct,
        m.states[p.comp][p.res],
    ) {
        Err(e) => Err(e),
        Ok((streams, states)) => Ok(
            TileModel {
                streams,
                states: m.states.update(p.comp, m.states[p.comp].update(p.res, states)),
                index: m.index.wrapping_add(1),
                ..m
            },
        ),
    }
}

/// Every component's code-block style.
pub open spec fn styles_of(h: HeaderView) -> Seq<u8> {
    Seq::new(h.components.len(), |c: int| h.components[c].coding.code_block_style)
}

/// The states of a resolution's bands before any packet.
pub open spec fn fresh_bands(g: ResolutionView) -> Seq<BandStateView> {
    Seq::new(g.bands.len(), |i: int| fresh_state(g.bands[i]))
}

/// The states of a component's bands before any packet.
pub open spec fn fresh_component(g: Seq<ResolutionView>) -> Seq<Seq<BandStateView>> {
    Seq::new(g.len(), |r: int| fresh_bands(g[r]))
}

/// The states of every band before any packet.
pub open spec fn fresh_states(g: Seq<Seq<ResolutionView>>) -> Seq<Seq<Seq<BandStateView>>> {
    Seq::new(g.len(), |c: int| fresh_component(g[c]))
}

/// The model before any packet. With packed headers, packet headers come from
/// them and the bodies alone stay in the data.
pub open spec fn initial_model(
    h: HeaderView,
    tile: TileView,
    geoms: Seq<Seq<ResolutionView>>,
) -> TileModel {
    let packed = tile.packed_headers.len() > 0;
    TileModel {
        streams: StreamsView {
            header: if packed { tile.packed_headers } else { tile.data },
            header_pos: 0,
            data: tile.data,
            body_pos: 0,
            packed,
        },
        states: fresh_states(geoms),
        index: 0,
        geoms,
        styles: styles_of(h),
        delimiters: Delimiters { sop: h.cod.use_sop, eph: h.cod.use_eph },
    }
}

/// The subbands of every component.
pub open spec fn coded_spec(
    geoms: Seq<Seq<ResolutionView>>,
    states: Seq<Seq<Seq<BandStateView>>>,
) -> Seq<Seq<Seq<SubbandView>>> {
    Seq::new(
        geoms.len(),
        |c: int| Seq::new(geoms[c].len(), |r: int| subbands_spec(geoms[c][r].bands, states[c][r])),
    )
}

/// Every block that has passes has bytes.
pub open spec fn all_fed(states: Seq<Seq<Seq<BandStateView>>>) -> bool {
    forall|c: int, r: int|
        0 <= c < states.len() && 0 <= r < states[c].len() ==> bands_fed(#[trigger] states[c][r])
}

/// What is said of packets that do not fill the tile's data: a block without bytes, or
/// bytes that are left over.
pub open spec fn leftover_text(m: TileModel) -> Seq<char> {
    let s = m.streams;
    if !all_fed(m.states) {
        starved_text()
    } else if s.body_pos != s.data.len() {
        "tile-part has "@ + decimal_text((s.data.len() - s.body_pos) as nat)
            + " body byte(s) left after the last packet"@
    } else {
        "packed headers have "@ + decimal_text((s.header.len() - s.header_pos) as nat)
            + " byte(s) left after the last packet"@
    }
}

/// What [`decode_packets`] makes of a tile: the geometry, the walk over its
/// packets, and the subbands. The packets must fill the data exactly, and the
/// packed headers too where there are any.
pub open spec fn packets_spec(h: HeaderView, tile: TileView) -> core::result::Result<
    Seq<Seq<Seq<SubbandView>>>,
    Fault,
> {
    match all_geoms(h, tile.index as int, 0, MAX_PRECINCTS as int, MAX_CODE_BLOCKS as int) {
        Err(e) => Err(e),
        Ok(geoms) => match h.siz.tile_rect(tile.index as int) {
            None => Err(
                fault(
                    ErrorKind::Inconsistent,
                    "no tile "@ + decimal_text(tile.index as nat) + " in SIZ"@,
                ),
            ),
            Some(rect) => {
                let w = WalkView { siz: h.siz, tile: rect, geoms };
                match walk_spec::<TileSink>(h, w, initial_model(h, tile, geoms)) {
                    Err(e) => Err(e),
                    Ok(done) => {
                        let m = done.model;
                        if all_fed(m.states) && m.streams.body_pos == m.streams.data.len() && (
                        m.streams.packed ==> m.streams.header_pos == m.streams.header.len()) {
                            Ok(coded_spec(geoms, m.states))
                        } else {
                            Err(fault(ErrorKind::Codestream, leftover_text(m)))
                        }
                    },
                }
            },
        },
    }
}

/// Parses the packets that a walk hands it.
pub struct TileSink<'a, 'g> {
    pub streams: PacketStreams<'a>,
    pub states: Vec<Vec<Vec<BandState<'a>>>>,
    pub packet_index: u32,
    pub geoms: &'g Vec<Vec<ResolutionGeom>>,
    pub styles: Vec<u8>,
    pub delimiters: Delimiters,
}

/// A component's states.
pub open spec fn level_states(s: Seq<Vec<BandState<'_>>>) -> Seq<Seq<BandStateView>> {
    Seq::new(s.len(), |r: int| state_views(s[r]@))
}

/// Every component's states.
pub open spec fn comp_states(s: Seq<Vec<Vec<BandState<'_>>>>) -> Seq<Seq<Seq<BandStateView>>> {
    Seq::new(s.len(), |c: int| level_states(s[c]@))
}

/// Every band's state is one for its geometry.
pub open spec fn model_fits(m: TileModel) -> bool {
    &&& m.streams.wf()
    &&& m.states.len() == m.geoms.len()
    &&& m.styles.len() >= m.geoms.len()
    &&& forall|c: int|
        0 <= c < m.geoms.len() ==> (#[trigger] m.states[c]).len() == m.geoms[c].len()
    &&& forall|c: int, r: int|
        0 <= c < m.geoms.len() && 0 <= r < m.geoms[c].len() ==> resolution_fits(
            #[trigger] m.geoms[c][r],
            m.states[c][r],
        )
}

/// The states of a resolution's bands are ones for its geometry, and every band
/// has all of its precincts.
pub open spec fn resolution_fits(g: ResolutionView, s: Seq<BandStateView>) -> bool {
    &&& s.len() == g.bands.len()
    &&& forall|i: int|
        0 <= i < g.bands.len() ==> state_fits(#[trigger] s[i], g.bands[i])
            && g.bands[i].precincts.len() == g.precincts_wide * g.precincts_high
}

/// A packet's bands have states for their geometry, and the packet's precinct.
proof fn lemma_packet_fits(m: TileModel, comp: int, res: int, precinct: int)
    requires
        model_fits(m),
        0 <= comp < m.geoms.len(),
        0 <= res < m.geoms[comp].len(),
        0 <= precinct < m.geoms[comp][res].precincts_wide * m.geoms[comp][res].precincts_high,
    ensures
        states_fit(m.states[comp][res], m.geoms[comp][res].bands, precinct),
{
    let g = m.geoms[comp][res];
    let s = m.states[comp][res];
    assert(resolution_fits(g, s));
    assert forall|i: int| 0 <= i < g.bands.len() implies state_fits(#[trigger] s[i], g.bands[i])
        && 0 <= precinct < g.bands[i].precincts.len() by {
        assert(state_fits(s[i], g.bands[i]));
        assert(g.bands[i].precincts.len() == g.precincts_wide * g.precincts_high);
    }
}

impl<'a, 'g> PacketSink for TileSink<'a, 'g> {
    type Model = TileModel;

    open spec fn model(&self) -> TileModel {
        TileModel {
            streams: self.streams@,
            states: comp_states(self.states@),
            index: self.packet_index,
            geoms: geoms_views(self.geoms@),
            styles: self.styles@,
            delimiters: self.delimiters,
        }
    }

    open spec fn inv(&self) -> bool {
        model_fits(self.model())
    }

    open spec fn accepts(&self, p: Packet) -> bool {
        let m = self.model();
        &&& 0 <= p.layer < u32::MAX
        &&& 0 <= p.comp < m.geoms.len()
        &&& 0 <= p.res < m.geoms[p.comp].len()
        &&& 0 <= p.precinct < m.geoms[p.comp][p.res].precincts_wide
            * m.geoms[p.comp][p.res].precincts_high
    }

    open spec fn step(m: TileModel, p: Packet) -> core::result::Result<TileModel, Fault> {
        tile_step(m, p)
    }

    fn visit(&mut self, layer: u32, res: usize, comp: usize, precinct: usize) -> (r: Result<()>) {
        let ghost before = self.model();
        let ghost p = packet_of(layer, res, comp, precinct);
        let geom: &ResolutionGeom = &self.geoms[comp][res];
        proof {
            assert(before.geoms[comp as int] == resolution_views(self.geoms@[comp as int]@));
            assert(before.geoms[comp as int][res as int] == geom@);
            assert(before.states[comp as int][res as int] == state_views(
                self.states@[comp as int]@[res as int]@,
            ));
            assert(geom@.bands == band_views(geom.bands@));
            lemma_packet_fits(before, comp as int, res as int, precinct as int);
        }
        let style: u8 = self.styles[comp];
        parse_packet(
            &mut self.streams,
            layer,
            self.packet_index,
            self.delimiters,
            style,
            &geom.bands,
            precinct,
            &mut self.states[comp][res],
        )?;
        self.packet_index = self.packet_index.wrapping_add(1);
        proof {
            let now = self.model();
            let s = state_views(self.states@[comp as int]@[res as int]@);
            assert(now.states[comp as int] =~= before.states[comp as int].update(res as int, s));
            assert(now.states =~= before.states.update(comp as int, now.states[comp as int]));
            assert(TileSink::step(before, p) == Ok::<TileModel, Fault>(now));
            assert forall|c: int, r: int|
                0 <= c < now.geoms.len() && 0 <= r < now.geoms[c].len() implies resolution_fits(
                #[trigger] now.geoms[c][r],
                now.states[c][r],
            ) by {
                assert(resolution_fits(before.geoms[c][r], before.states[c][r]));
                if c == comp && r == res {
                    let g = before.geoms[c][r];
                    assert(now.states[c][r] == s);
                    assert forall|i: int| 0 <= i < g.bands.len() implies state_fits(
                        #[trigger] s[i],
                        g.bands[i],
                    ) && g.bands[i].precincts.len() == g.precincts_wide * g.precincts_high by {
                        let t = before.states[c][r][i];
                    }
                } else {
                    assert(now.states[c][r] == before.states[c][r]);
                }
            }
            assert(model_fits(now));
        }
        Ok(())
    }
}

/// What [`geoms_spec`] promises of a component that it accepts.
pub open spec fn comp_fits(h: HeaderView, tile: int, c: int, g: Seq<ResolutionView>) -> bool {
    let coding = h.components[c].coding;
    let count = coding.decomposition_levels as nat + 1;
    &&& 0 <= c < h.components.len()
    &&& coding.decomposition_levels <= 32
    &&& h.siz.tile_component_rect(tile, c) matches Some(tc) && {
        &&& tc.x0 < tc.x1
        &&& tc.y0 < tc.y1
        &&& precincts_below(tc, coding, count) <= MAX_PRECINCTS
        &&& blocks_below(tc, coding, count, 0) <= MAX_CODE_BLOCKS
        &&& g == Seq::new(count, |r: int| resolution_spec(tc, coding, r as nat))
    }
}

/// A precinct's blocks are blocks of its band.
proof fn lemma_precinct_shape(bx: Span, by: Span, cbw: int, cbh: int, g: super::geometry::Groups, k: int)
    requires
        cbw > 0,
        cbh > 0,
        0 <= bx.lo,
        0 <= by.lo,
        cells(bx, cbw) * cells(by, cbh) <= MAX_CODE_BLOCKS,
        0 <= cells(bx, cbw) <= u32::MAX,
        0 <= cells(by, cbh) <= u32::MAX,
    ensures
        precinct_shape(
            precinct_spec(bx, by, cbw, cbh, g, k),
            (cells(bx, cbw) * cells(by, cbh)) as nat,
        ),
{
    let p = precinct_spec(bx, by, cbw, cbh, g, k);
    let px = clip(bx, g.x + k % g.wide, pow2(g.x_exp) as int);
    let py = clip(by, g.y + k / g.wide, pow2(g.y_exp) as int);
    let (cols, rows) = (cells(px, cbw), cells(py, cbh));
    let (bc, br) = (cells(bx, cbw), cells(by, cbh));
    lemma_cells_bound(px, cbw);
    lemma_cells_bound(py, cbh);
    if cols > 0 {
        lemma_cells_within(px, bx, cbw);
    }
    if rows > 0 {
        lemma_cells_within(py, by, cbh);
    }
    assert(0 <= cols * rows) by (nonlinear_arith)
        requires
            cols >= 0,
            rows >= 0,
    ;
    if cols == 0 || rows == 0 {
        assert(cols * rows == 0) by (nonlinear_arith)
            requires
                cols == 0 || rows == 0,
        ;
        if cols > 0 {
            assert(cols <= bc);
        }
        if rows > 0 {
            assert(rows <= br);
        }
    } else {
        assert(cols * rows <= bc * br) by (nonlinear_arith)
            requires
                0 < cols <= bc,
                0 < rows <= br,
        ;
        assert forall|m: int| 0 <= m < p.blocks.len() implies #[trigger] p.blocks[m] < bc * br by {
            lemma_grid_position(m, cols, rows);
            let row = first_cell(py, cbh) + m / cols - first_cell(by, cbh);
            let col = first_cell(px, cbw) + m % cols - first_cell(bx, cbw);
            crate::math::lemma_index_bound(col, row, bc, br);
        }
    }
}

/// Every band of a resolution has all of its precincts, and their blocks are
/// blocks of the band.
proof fn lemma_band_shape(tc: Rect, coding: CodingView, r: nat, i: int)
    requires
        r <= coding.decomposition_levels <= 32,
        0 <= i < band_count(r),
        blocks_in(tc, coding, r, i) <= MAX_CODE_BLOCKS,
    ensures
        ({
            let b = band_of(tc, coding, r, i);
            let g = groups_of(tc, coding, r);
            &&& band_shape(b)
            &&& b.precincts.len() == g.wide * g.high
            &&& g.wide >= 0
            &&& g.high >= 0
        }),
{
    let b = band_of(tc, coding, r, i);
    let g = groups_of(tc, coding, r);
    let xcb = block_exponent(coding.code_block_width, g.x_exp);
    let ycb = block_exponent(coding.code_block_height, g.y_exp);
    let (cbw, cbh) = (pow2(xcb) as int, pow2(ycb) as int);
    lemma_pow2_pos(xcb);
    lemma_pow2_pos(ycb);
    lemma_precincts_in(tc, coding, r);
    let level = (coding.decomposition_levels - r) as nat;
    let bx = if r == 0 {
        resolution_span(tc.x0 as int, tc.x1 as int, level)
    } else {
        super::geometry::band_span(tc.x0 as int, tc.x1 as int, level + 1, i != 1)
    };
    let by = if r == 0 {
        resolution_span(tc.y0 as int, tc.y1 as int, level)
    } else {
        super::geometry::band_span(tc.y0 as int, tc.y1 as int, level + 1, i != 0)
    };
    super::geometry::lemma_band_spans(tc, coding, r, i);
    lemma_cells_bound(bx, cbw);
    lemma_cells_bound(by, cbh);
    assert forall|k: int| 0 <= k < b.precincts.len() implies precinct_shape(
        #[trigger] b.precincts[k],
        b.blocks.len(),
    ) by {
        lemma_precinct_shape(bx, by, cbw, cbh, g, k);
        assert(b.precincts[k] == precinct_spec(bx, by, cbw, cbh, g, k));
    }
}

/// Components that the geometry accepts make a well-formed walk.
proof fn lemma_walk_wf(h: HeaderView, tile: int, w: WalkView)
    requires
        header_legal(h),
        w.siz == h.siz,
        w.geoms.len() <= h.siz.components.len(),
        h.siz.tile_rect(tile) == Some(w.tile),
        forall|c: int|
            0 <= c < w.geoms.len() ==> comp_fits(h, tile, c, #[trigger] w.geoms[c]),
    ensures
        w.wf(),
{
    assert forall|c: int| 0 <= c < w.geoms.len() implies 1 <= (#[trigger] w.geoms[c]).len() <= 33
        && w.siz.has_component(c) by {
        assert(comp_fits(h, tile, c, w.geoms[c]));
    }
    assert forall|c: int, r: int| w.has(c, r) implies w.grid_fits(c, r) by {
        assert(comp_fits(h, tile, c, w.geoms[c]));
        let tc = h.siz.tile_component_rect(tile, c).unwrap();
        let coding = h.components[c].coding;
        let g = w.geoms[c][r];
        assert(g == resolution_spec(tc, coding, r as nat));
        let level = w.level(c, r);
        assert(level == (coding.decomposition_levels - r) as nat);
        let dx = h.siz.components[c].x_sampling as int;
        let dy = h.siz.components[c].y_sampling as int;
        let p = pow2(level) as int;
        lemma_pow2_pos(level);
        lemma_ceil_div_twice(w.tile.x0 as int, dx, p);
        lemma_ceil_div_twice(w.tile.x1 as int, dx, p);
        lemma_ceil_div_twice(w.tile.y0 as int, dy, p);
        lemma_ceil_div_twice(w.tile.y1 as int, dy, p);
        super::geometry::lemma_sampled_bounds(w.tile, dx, dy);
        super::geometry::lemma_precinct_legal(coding, r);
        lemma_precincts_in(tc, coding, r as nat);
        super::geometry::lemma_part_of_total(tc, coding, r as nat, 0);
    }
}

/// The states of bands that no packet has touched fit their geometry.
proof fn lemma_fresh_fits(tc: Rect, coding: CodingView, r: nat)
    requires
        r <= coding.decomposition_levels <= 32,
        blocks_below(tc, coding, coding.decomposition_levels as nat + 1, 0) <= MAX_CODE_BLOCKS,
    ensures
        ({
            let g = resolution_spec(tc, coding, r);
            forall|i: int|
                0 <= i < g.bands.len() ==> band_shape(#[trigger] g.bands[i])
                    && g.bands[i].precincts.len() == g.precincts_wide * g.precincts_high
        }),
{
    let g = resolution_spec(tc, coding, r);
    assert forall|i: int| 0 <= i < g.bands.len() implies band_shape(#[trigger] g.bands[i])
        && g.bands[i].precincts.len() == g.precincts_wide * g.precincts_high by {
        super::geometry::lemma_part_of_total(tc, coding, r, i);
        lemma_band_shape(tc, coding, r, i);
    }
}

/// The geometry of every component of the tile.
fn tile_geoms(header: &MainHeader, tile: u32) -> (r: Result<Vec<Vec<ResolutionGeom>>>)
    requires
        header_legal(header@),
    ensures
        ({
            let want = all_geoms(
                header@,
                tile as int,
                0,
                MAX_PRECINCTS as int,
                MAX_CODE_BLOCKS as int,
            );
            match r {
                Ok(geoms) => {
                    &&& want == Ok::<Seq<Seq<ResolutionView>>, Fault>(geoms_views(geoms@))
                    &&& geoms@.len() == header@.siz.components.len()
                    &&& forall|c: int|
                        0 <= c < geoms@.len() ==> comp_fits(
                            header@,
                            tile as int,
                            c,
                            #[trigger] geoms_views(geoms@)[c],
                        )
                },
                Err(e) => want == Err::<Seq<Seq<ResolutionView>>, Fault>(e@),
            }
        }),
{
    let mut precinct_budget: usize = MAX_PRECINCTS;
    let mut block_budget: usize = MAX_CODE_BLOCKS;
    let ghost h = header@;
    let ghost goal = all_geoms(h, tile as int, 0, MAX_PRECINCTS as int, MAX_CODE_BLOCKS as int);
    let mut geoms: Vec<Vec<ResolutionGeom>> = Vec::new();
    proof {
        let rest = all_geoms(h, tile as int, 0, MAX_PRECINCTS as int, MAX_CODE_BLOCKS as int);
        if rest is Ok {
            assert(geoms_views(geoms@) + rest->Ok_0 =~= rest->Ok_0);
        }
    }
    while geoms.len() < header.siz.components.len()
        invariant
            h == header@,
            header_legal(h),
            geoms@.len() <= h.siz.components.len(),
            h.siz.components == header.siz.components@,
            precinct_budget <= MAX_PRECINCTS,
            block_budget <= MAX_CODE_BLOCKS,
            forall|c: int|
                0 <= c < geoms@.len() ==> comp_fits(
                    h,
                    tile as int,
                    c,
                    #[trigger] geoms_views(geoms@)[c],
                ),
            goal == all_geoms(h, tile as int, 0, MAX_PRECINCTS as int, MAX_CODE_BLOCKS as int),
            goal == match all_geoms(
                h,
                tile as int,
                geoms@.len() as int,
                precinct_budget as int,
                block_budget as int,
            ) {
                Ok(rest) => Ok(geoms_views(geoms@) + rest),
                Err(e) => Err(e),
            },
        decreases h.siz.components.len() - geoms@.len(),
    {
        let c: usize = geoms.len();
        let ghost before = geoms_views(geoms@);
        let ghost (pb, bb) = (precinct_budget as int, block_budget as int);
        let g: Vec<ResolutionGeom> = resolution_geoms(
            header,
            tile,
            c,
            &mut precinct_budget,
            &mut block_budget,
        )?;
        proof {
            let tc = h.siz.tile_component_rect(tile as int, c as int).unwrap();
            let coding = h.components[c as int].coding;
            let count = coding.decomposition_levels as nat + 1;
            super::geometry::lemma_totals_nonnegative(tc, coding);
            let rest = all_geoms(
                h,
                tile as int,
                c + 1,
                pb - precincts_below(tc, coding, count),
                bb - blocks_below(tc, coding, count, 0),
            );
            if rest is Ok {
                assert(before + (seq![resolution_views(g@)] + rest->Ok_0) =~= before.push(
                    resolution_views(g@),
                ) + rest->Ok_0);
            }
            assert(comp_fits(h, tile as int, c as int, resolution_views(g@)));
        }
        geoms.push(g);
        proof {
            assert(geoms_views(geoms@) =~= before.push(resolution_views(geoms@[c as int]@)));
            assert forall|k: int| 0 <= k < geoms@.len() implies comp_fits(
                h,
                tile as int,
                k,
                #[trigger] geoms_views(geoms@)[k],
            ) by {
                if k < c {
                    assert(geoms_views(geoms@)[k] == before[k]);
                }
            }
        }
    }
    proof {
        assert(geoms_views(geoms@) + Seq::<Seq<ResolutionView>>::empty() =~= geoms_views(geoms@));
    }
    Ok(geoms)
}

/// The states of every band before any packet.
fn tile_states<'a>(geoms: &Vec<Vec<ResolutionGeom>>) -> (states: Vec<Vec<Vec<BandState<'a>>>>)
    requires
        forall|c: int, r: int, i: int|
            0 <= c < geoms@.len() && 0 <= r < geoms@[c]@.len() && 0 <= i < geoms@[c]@[r].bands@.len()
                ==> band_shape((#[trigger] geoms@[c]@[r].bands@[i])@),
    ensures
        comp_states(states@) == fresh_states(geoms_views(geoms@)),
        states@.len() == geoms@.len(),
        forall|c: int, r: int, i: int|
            0 <= c < geoms@.len() && 0 <= r < geoms@[c]@.len() && 0 <= i < geoms@[c]@[r].bands@.len()
                ==> state_fits(
                #[trigger] comp_states(states@)[c][r][i],
                geoms_views(geoms@)[c][r].bands[i],
            ),
{
    let ghost views = geoms_views(geoms@);
    let mut states: Vec<Vec<Vec<BandState<'a>>>> = Vec::new();
    while states.len() < geoms.len()
        invariant
            views == geoms_views(geoms@),
            states@.len() <= geoms@.len(),
            forall|c: int, r: int, i: int|
                0 <= c < geoms@.len() && 0 <= r < geoms@[c]@.len() && 0 <= i
                    < geoms@[c]@[r].bands@.len() ==> band_shape(
                    (#[trigger] geoms@[c]@[r].bands@[i])@,
                ),
            forall|c: int|
                0 <= c < states@.len() ==> level_states((#[trigger] states@[c])@)
                    == fresh_component(views[c]),
            forall|c: int, r: int, i: int|
                0 <= c < states@.len() && 0 <= r < geoms@[c]@.len() && 0 <= i
                    < geoms@[c]@[r].bands@.len() ==> state_fits(
                    #[trigger] fresh_component(views[c])[r][i],
                    views[c][r].bands[i],
                ),
        decreases geoms@.len() - states@.len(),
    {
        let c: usize = states.len();
        let levels: &Vec<ResolutionGeom> = &geoms[c];
        let mut comp: Vec<Vec<BandState<'a>>> = Vec::new();
        while comp.len() < levels.len()
            invariant
                c < geoms@.len(),
                *levels == geoms@[c as int],
                views == geoms_views(geoms@),
                comp@.len() <= levels@.len(),
                forall|c: int, r: int, i: int|
                    0 <= c < geoms@.len() && 0 <= r < geoms@[c]@.len() && 0 <= i
                        < geoms@[c]@[r].bands@.len() ==> band_shape(
                        (#[trigger] geoms@[c]@[r].bands@[i])@,
                    ),
                forall|r: int|
                    0 <= r < comp@.len() ==> state_views((#[trigger] comp@[r])@) == fresh_bands(
                        views[c as int][r],
                    ),
                forall|r: int, i: int|
                    0 <= r < comp@.len() && 0 <= i < levels@[r].bands@.len() ==> state_fits(
                        #[trigger] fresh_bands(views[c as int][r])[i],
                        views[c as int][r].bands[i],
                    ),
            decreases levels@.len() - comp@.len(),
        {
            let r: usize = comp.len();
            let geom: &ResolutionGeom = &levels[r];
            assert(views[c as int][r as int] == geom@);
            let mut bands: Vec<BandState<'a>> = Vec::new();
            while bands.len() < geom.bands.len()
                invariant
                    bands@.len() <= geom.bands@.len(),
                    forall|i: int|
                        0 <= i < geom.bands@.len() ==> band_shape((#[trigger] geom.bands@[i])@),
                    forall|i: int|
                        0 <= i < bands@.len() ==> (#[trigger] bands@[i])@ == fresh_state(
                            geom@.bands[i],
                        ) && state_fits(bands@[i]@, geom@.bands[i]),
                decreases geom.bands@.len() - bands@.len(),
            {
                let i: usize = bands.len();
                assert(geom@.bands[i as int] == geom.bands@[i as int]@);
                bands.push(BandState::new(&geom.bands[i]));
            }
            proof {
                assert(state_views(bands@) =~= fresh_bands(geom@));
                assert forall|i: int| 0 <= i < levels@[r as int].bands@.len() implies state_fits(
                    #[trigger] fresh_bands(views[c as int][r as int])[i],
                    views[c as int][r as int].bands[i],
                ) by {
                    assert(bands@[i]@ == fresh_state(geom@.bands[i]));
                }
            }
            comp.push(bands);
        }
        proof {
            assert(level_states(comp@) =~= fresh_component(views[c as int]));
            assert forall|r: int, i: int|
                0 <= r < geoms@[c as int]@.len() && 0 <= i < geoms@[c as int]@[r].bands@.len() implies state_fits(
                #[trigger] fresh_component(views[c as int])[r][i],
                views[c as int][r].bands[i],
            ) by {
                assert(fresh_component(views[c as int])[r] == fresh_bands(views[c as int][r]));
            }
        }
        states.push(comp);
    }
    assert(comp_states(states@) =~= fresh_states(views));
    states
}

/// Every component's subbands, once all packets are parsed.
fn tile_components<'a>(
    geoms: &Vec<Vec<ResolutionGeom>>,
    states: &Vec<Vec<Vec<BandState<'a>>>>,
) -> (r: Result<Vec<ComponentCoded<'a>>>)
    requires
        states@.len() == geoms@.len(),
        forall|c: int|
            0 <= c < geoms@.len() ==> (#[trigger] states@[c])@.len() == geoms@[c]@.len(),
        forall|c: int, r: int|
            0 <= c < geoms@.len() && 0 <= r < geoms@[c]@.len() ==> resolution_fits(
                geoms_views(geoms@)[c][r],
                #[trigger] comp_states(states@)[c][r],
            ),
    ensures
        match r {
            Ok(components) => all_fed(comp_states(states@)) && component_views(components@)
                == coded_spec(geoms_views(geoms@), comp_states(states@)),
            Err(e) => {
                &&& e@ == fault(ErrorKind::Codestream, starved_text())
                &&& !all_fed(comp_states(states@))
            },
        },
{
    let ghost gv = geoms_views(geoms@);
    let ghost sv = comp_states(states@);
    let mut components: Vec<ComponentCoded<'a>> = Vec::new();
    while components.len() < geoms.len()
        invariant
            gv == geoms_views(geoms@),
            sv == comp_states(states@),
            states@.len() == geoms@.len(),
            components@.len() <= geoms@.len(),
            forall|c: int|
                0 <= c < geoms@.len() ==> (#[trigger] states@[c])@.len() == geoms@[c]@.len(),
            forall|c: int, r: int|
                0 <= c < geoms@.len() && 0 <= r < geoms@[c]@.len() ==> resolution_fits(
                    gv[c][r],
                    #[trigger] sv[c][r],
                ),
            forall|c: int, r: int|
                0 <= c < components@.len() && 0 <= r < sv[c].len() ==> bands_fed(
                    #[trigger] sv[c][r],
                ),
            forall|c: int|
                0 <= c < components@.len() ==> (#[trigger] components@[c])@ == coded_spec(gv, sv)[c],
        decreases geoms@.len() - components@.len(),
    {
        let c: usize = components.len();
        let mut resolutions: Vec<Resolution<'a>> = Vec::new();
        assert(sv[c as int].len() == states@[c as int]@.len());
        assert(gv[c as int].len() == geoms@[c as int]@.len());
        while resolutions.len() < geoms[c].len()
            invariant
                c < geoms@.len(),
                gv == geoms_views(geoms@),
                sv == comp_states(states@),
                states@.len() == geoms@.len(),
                states@[c as int]@.len() == geoms@[c as int]@.len(),
                sv[c as int].len() == states@[c as int]@.len(),
                gv[c as int].len() == geoms@[c as int]@.len(),
                resolutions@.len() <= geoms@[c as int]@.len(),
                forall|c: int, r: int|
                    0 <= c < geoms@.len() && 0 <= r < geoms@[c]@.len() ==> resolution_fits(
                        gv[c][r],
                        #[trigger] sv[c][r],
                    ),
                forall|r: int|
                    0 <= r < resolutions@.len() ==> bands_fed(#[trigger] sv[c as int][r]),
                forall|r: int|
                    0 <= r < resolutions@.len() ==> (#[trigger] resolutions@[r])@
                        == subbands_spec(gv[c as int][r].bands, sv[c as int][r]),
            decreases geoms@[c as int]@.len() - resolutions@.len(),
        {
            let r: usize = resolutions.len();
            let geom: &ResolutionGeom = &geoms[c][r];
            let bands: &Vec<BandState<'a>> = &states[c][r];
            proof {
                assert(gv[c as int][r as int] == geom@);
                assert(sv[c as int][r as int] == state_views(bands@));
                assert(resolution_fits(gv[c as int][r as int], sv[c as int][r as int]));
                assert forall|i: int| 0 <= i < geom.bands@.len() implies (
                #[trigger] geom.bands@[i])@.blocks.len() == bands@[i]@.blocks.len() by {
                    assert(geom@.bands[i] == geom.bands@[i]@);
                    assert(state_fits(sv[c as int][r as int][i], geom@.bands[i]));
                }
            }
            let subbands: Vec<Subband<'a>> = build_subbands(&geom.bands, bands)?;
            resolutions.push(Resolution { subbands });
        }
        let comp = ComponentCoded { resolutions };
        assert(comp@ =~= coded_spec(gv, sv)[c as int]);
        components.push(comp);
    }
    assert(component_views(components@) =~= coded_spec(gv, sv));
    Ok(components)
}

/// Parse all packets of one tile into per-code-block coded segments.
///
/// `header` is the tile's resolved header. The packets follow its progression, and
/// must fill the tile's data exactly.
#[verifier::rlimit(30)]
pub fn decode_packets<'a>(header: &MainHeader, tile: &'a Tile<'a>) -> (r: Result<CodedData<'a>>)
    requires
        header_legal(header@),
    ensures
        match r {
            Ok(coded) => packets_spec(header@, tile@) == Ok::<
                Seq<Seq<Seq<SubbandView>>>,
                Fault,
            >(coded@),
            Err(e) => packets_spec(header@, tile@) == Err::<Seq<Seq<Seq<SubbandView>>>, Fault>(e@),
        },
{
    let ghost h = header@;
    let data: &'a [u8] = tile.bytes();
    let geoms: Vec<Vec<ResolutionGeom>> = tile_geoms(header, tile.index)?;
    let rect: Rect = match header.siz.tile_rect(tile.index) {
        Some(rect) => rect,
        None => {
            return Err(
                Error::Inconsistent(
                    "no tile ".to_string().concat(decimal(tile.index as u64).as_str()).concat(
                        " in SIZ",
                    ),
                ),
            );
        },
    };
    let walk = PacketWalk { siz: &header.siz, tile: rect, geoms: &geoms };
    let ghost gv = geoms_views(geoms@);
    proof {
        assert forall|c: int| 0 <= c < gv.len() implies comp_fits(
            h,
            tile.index as int,
            c,
            #[trigger] gv[c],
        ) by {}
        lemma_walk_wf(h, tile.index as int, walk@);
        assert forall|c: int, r: int, i: int|
            0 <= c < geoms@.len() && 0 <= r < geoms@[c]@.len() && 0 <= i
                < geoms@[c]@[r].bands@.len() implies band_shape(
            (#[trigger] geoms@[c]@[r].bands@[i])@,
        ) by {
            assert(comp_fits(h, tile.index as int, c, gv[c]));
            let tc = h.siz.tile_component_rect(tile.index as int, c).unwrap();
            let coding = h.components[c].coding;
            assert(gv[c][r] == geoms@[c]@[r]@);
            assert(gv[c][r] == resolution_spec(tc, coding, r as nat));
            lemma_fresh_fits(tc, coding, r as nat);
            assert(gv[c][r].bands[i] == geoms@[c]@[r].bands@[i]@);
        }
    }
    let mut styles: Vec<u8> = Vec::new();
    while styles.len() < header.components.len()
        invariant
            h == header@,
            styles@.len() <= header.components@.len(),
            forall|c: int|
                0 <= c < styles@.len() ==> #[trigger] styles@[c]
                    == h.components[c].coding.code_block_style,
        decreases header.components@.len() - styles@.len(),
    {
        let c: usize = styles.len();
        assert(h.components[c as int] == header.components@[c as int]@);
        styles.push(header.components[c].coding.code_block_style);
    }
    assert(styles@ =~= styles_of(h));
    let packed: bool = tile.packed_headers.len() > 0;
    let streams = PacketStreams {
        header: if packed { tile.packed_headers.as_slice() } else { data },
        header_pos: 0,
        data,
        body_pos: 0,
        packed,
    };
    let states: Vec<Vec<Vec<BandState<'a>>>> = tile_states(&geoms);
    let mut sink = TileSink {
        streams,
        states,
        packet_index: 0,
        geoms: &geoms,
        styles,
        delimiters: Delimiters { sop: header.cod.use_sop, eph: header.cod.use_eph },
    };
    proof {
        let m = sink.model();
        assert(m == initial_model(h, tile@, gv));
        assert forall|c: int| 0 <= c < gv.len() implies (#[trigger] m.states[c]).len()
            == gv[c].len() by {}
        assert forall|c: int, r: int|
            0 <= c < gv.len() && 0 <= r < gv[c].len() implies resolution_fits(
            #[trigger] gv[c][r],
            m.states[c][r],
        ) by {
            assert(comp_fits(h, tile.index as int, c, gv[c]));
            let tc = h.siz.tile_component_rect(tile.index as int, c).unwrap();
            let coding = h.components[c].coding;
            lemma_fresh_fits(tc, coding, r as nat);
            let g = gv[c][r];
            assert(g == geoms@[c]@[r]@);
            assert forall|i: int| 0 <= i < g.bands.len() implies state_fits(
                #[trigger] m.states[c][r][i],
                g.bands[i],
            ) && g.bands[i].precincts.len() == g.precincts_wide * g.precincts_high by {
                let t = g.bands[i];
                let q = geoms@[c]@[r].bands@[i];
            }
        }
        if gv.len() > 0 {
            assert(comp_fits(h, tile.index as int, gv.len() - 1, gv[gv.len() - 1]));
        }
        assert(model_fits(m));
        assert forall|p: Packet| #[trigger] walk@.holds(p) implies sink.accepts(p) by {}
    }
    for_each_packet(header, &walk, &mut sink)?;
    proof {
        let m = sink.model();
        lemma_walk_keeps(h, walk@, initial_model(h, tile@, gv));
        assert forall|c: int| 0 <= c < geoms@.len() implies (#[trigger] sink.states@[c])@.len()
            == geoms@[c]@.len() by {
            assert(m.states[c].len() == m.geoms[c].len());
        }
        assert forall|c: int, r: int|
            0 <= c < geoms@.len() && 0 <= r < geoms@[c]@.len() implies resolution_fits(
            geoms_views(geoms@)[c][r],
            #[trigger] comp_states(sink.states@)[c][r],
        ) by {
            assert(resolution_fits(m.geoms[c][r], m.states[c][r]));
        }
    }
    let components: Vec<ComponentCoded<'a>> = tile_components(&geoms, &sink.states)?;
    if sink.streams.body_pos != data.len() {
        return Err(
            Error::Codestream(
                "tile-part has ".to_string().concat(
                    decimal((data.len() - sink.streams.body_pos) as u64).as_str(),
                ).concat(" body byte(s) left after the last packet"),
            ),
        );
    }
    if packed && sink.streams.header_pos != sink.streams.header.len() {
        return Err(
            Error::Codestream(
                "packed headers have ".to_string().concat(
                    decimal(
                        (sink.streams.header.len() - sink.streams.header_pos) as u64,
                    ).as_str(),
                ).concat(" byte(s) left after the last packet"),
            ),
        );
    }
    Ok(CodedData { components })
}

/// Packets leave the geometry and the bytes of the streams alone.
proof fn lemma_run_keeps(p: Progress<TileModel>, packets: Seq<Packet>)
    ensures
        super::progression::run::<TileSink>(p, packets) matches Ok(q) ==> {
            &&& q.model.geoms == p.model.geoms
            &&& q.model.streams.data == p.model.streams.data
            &&& q.model.streams.header == p.model.streams.header
            &&& q.model.streams.packed == p.model.streams.packed
        },
    decreases packets.len(),
{
    if packets.len() > 0 {
        match super::progression::reach::<TileSink>(p, packets[0]) {
            Ok(next) => {
                lemma_run_keeps(next, packets.drop_first());
            },
            Err(_) => {},
        }
    }
}

/// A walk leaves the geometry and the bytes of the streams alone.
proof fn lemma_walk_keeps(h: HeaderView, w: WalkView, m: TileModel)
    ensures
        walk_spec::<TileSink>(h, w, m) matches Ok(q) ==> {
            &&& q.model.geoms == m.geoms
            &&& q.model.streams.data == m.streams.data
            &&& q.model.streams.header == m.streams.header
            &&& q.model.streams.packed == m.streams.packed
        },
{
    let volumes = super::progression::volumes_of(h, w);
    let seen = if volumes.len() == 1 { None } else { Some(Set::empty()) };
    lemma_run_keeps(
        Progress { model: m, seen },
        super::progression::packets_from(w, volumes, 0),
    );
}

} // verus!
