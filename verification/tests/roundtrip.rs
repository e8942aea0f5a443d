//! Whole codestreams, written by a small encoder and decoded back.

use rust_j2k::codestream::markers::{
    Cod, Progression, Qcd, QuantStyle, Rect, Siz, SizComponent, Transform,
};
use rust_j2k::codestream::MainHeader;
use rust_j2k::pipeline::{Band, Bands, DetailBands, Samples};
use rust_j2k::tier1::block::{
    BlockState, Orientation, CTX_RUN, CTX_UNI, CTX_ZC, NUM_CONTEXTS,
};
use rust_j2k::tier1::mq::qe_table;
use rust_j2k::tier2::geometry::{resolution_geoms, ResolutionGeom};
use rust_j2k::tier2::orders::packet_order;
use rust_j2k::tier2::progression::PacketWalk;
use rust_j2k::tier2::BandKind;
use rust_j2k::{decode, decode_with, DecodeOptions, Decoded, Error, Image};

const LAZY: u8 = 0x01;
const RESET: u8 = 0x02;
const RESTART: u8 = 0x04;
const CAUSAL: u8 = 0x08;
const SEGSYM: u8 = 0x20;

struct MqEncoder {
    a: u32,
    c: u32,
    ct: u32,
    out: Vec<u8>,
}

impl MqEncoder {
    fn new() -> Self {
        MqEncoder {
            a: 0x8000,
            c: 0,
            ct: 12,
            out: vec![0],
        }
    }

    fn byte_out(&mut self) {
        let last = self.out.len() - 1;
        let mut stuffed = self.out[last] == 0xFF;
        if !stuffed && self.c >= 0x800_0000 {
            self.out[last] += 1;
            self.c &= 0x7FF_FFFF;
            stuffed = self.out[last] == 0xFF;
        }
        if stuffed {
            self.out.push((self.c >> 20) as u8);
            self.c &= 0xF_FFFF;
            self.ct = 7;
        } else {
            self.out.push((self.c >> 19) as u8);
            self.c &= 0x7_FFFF;
            self.ct = 8;
        }
    }

    fn renormalise(&mut self) {
        loop {
            self.a <<= 1;
            self.c <<= 1;
            self.ct -= 1;
            if self.ct == 0 {
                self.byte_out();
            }
            if self.a & 0x8000 != 0 {
                return;
            }
        }
    }

    fn encode(&mut self, cx: &mut (u8, u8), bit: u8) {
        let row = qe_table(cx.0);
        let qe = u32::from(row.qe);
        self.a -= qe;
        if bit == cx.1 {
            if self.a & 0x8000 == 0 {
                if self.a < qe {
                    self.a = qe;
                } else {
                    self.c += qe;
                }
                cx.0 = row.next_mps;
                self.renormalise();
            } else {
                self.c += qe;
            }
        } else {
            if self.a < qe {
                self.c += qe;
            } else {
                self.a = qe;
            }
            if row.switch {
                cx.1 = 1 - cx.1;
            }
            cx.0 = row.next_lps;
            self.renormalise();
        }
    }

    fn flush(mut self) -> Vec<u8> {
        let top = self.c + self.a;
        self.c |= 0xFFFF;
        if self.c >= top {
            self.c -= 0x8000;
        }
        self.c <<= self.ct;
        self.byte_out();
        self.c <<= self.ct;
        self.byte_out();
        if self.out.last() == Some(&0xFF) {
            self.out.pop();
        }
        self.out.remove(0);
        self.out
    }
}

fn fresh_contexts() -> [(u8, u8); NUM_CONTEXTS] {
    let mut cx = [(0, 0); NUM_CONTEXTS];
    cx[CTX_ZC as usize] = (4, 0);
    cx[CTX_RUN as usize] = (3, 0);
    cx[CTX_UNI as usize] = (46, 0);
    cx
}

struct RawWriter {
    out: Vec<u8>,
    ct: u32,
}

impl RawWriter {
    fn put(&mut self, bit: u8) {
        if self.ct == 0 {
            self.ct = if self.out.last() == Some(&0xFF) { 7 } else { 8 };
            self.out.push(0);
        }
        self.ct -= 1;
        let last = self.out.len() - 1;
        self.out[last] |= bit << self.ct;
    }
}

struct BlockEncoder<'v> {
    values: &'v [i32],
    state: BlockState,
    orient: Orientation,
    cx: [(u8, u8); NUM_CONTEXTS],
    mq: MqEncoder,
    raw: RawWriter,
    bypass: bool,
    w: u32,
    h: u32,
}

impl BlockEncoder<'_> {
    fn value(&self, x: u32, y: u32) -> i32 {
        self.values[(y * self.w + x) as usize]
    }

    fn bit(&self, x: u32, y: u32, plane: u32) -> u8 {
        ((self.value(x, y).unsigned_abs() >> plane) & 1) as u8
    }

    fn put(&mut self, label: u8, bit: u8) {
        if self.bypass {
            self.raw.put(bit);
        } else {
            self.mq.encode(&mut self.cx[label as usize], bit);
        }
    }

    fn sign(&mut self, x: u32, y: u32) {
        let (label, xor) = self.state.sc_context(x, y);
        let negative = self.value(x, y) < 0;
        let predicted = if self.bypass { 0 } else { xor };
        self.put(label, u8::from(negative) ^ predicted);
        self.state.set_negative(x, y, negative);
        self.state.set_significant(x, y);
    }

    fn significance(&mut self, plane: u32) {
        for y0 in (0..self.h).step_by(4) {
            for x in 0..self.w {
                for y in y0..(y0 + 4).min(self.h) {
                    if self.state.is_significant(x, y) {
                        continue;
                    }
                    let label = self.state.zc_context(x, y, self.orient);
                    if label == CTX_ZC {
                        continue;
                    }
                    let bit = self.bit(x, y, plane);
                    self.put(label, bit);
                    if bit == 1 {
                        self.sign(x, y);
                    }
                    self.state.set_visited(x, y, true);
                }
            }
        }
    }

    fn refinement(&mut self, plane: u32) {
        for y0 in (0..self.h).step_by(4) {
            for x in 0..self.w {
                for y in y0..(y0 + 4).min(self.h) {
                    if !self.state.is_significant(x, y) || self.state.is_visited(x, y) {
                        continue;
                    }
                    let label = self.state.mr_context(x, y);
                    let bit = self.bit(x, y, plane);
                    self.put(label, bit);
                    self.state.set_refined(x, y);
                }
            }
        }
    }

    fn cleanup(&mut self, plane: u32, symbol: bool) {
        for y0 in (0..self.h).step_by(4) {
            for x in 0..self.w {
                let rows: Vec<u32> = (y0..(y0 + 4).min(self.h)).collect();
                let quiet = rows.len() == 4
                    && rows.iter().all(|&y| {
                        !self.state.is_significant(x, y)
                            && !self.state.is_visited(x, y)
                            && self.state.zc_context(x, y, self.orient) == CTX_ZC
                    });
                let mut first = 0;
                let mut known = false;
                if quiet {
                    match rows.iter().position(|&y| self.bit(x, y, plane) == 1) {
                        None => {
                            self.put(CTX_RUN, 0);
                            continue;
                        }
                        Some(run) => {
                            self.put(CTX_RUN, 1);
                            self.put(CTX_UNI, (run as u8 >> 1) & 1);
                            self.put(CTX_UNI, run as u8 & 1);
                            first = run;
                            known = true;
                        }
                    }
                }
                for &y in &rows[first..] {
                    if self.state.is_significant(x, y) || self.state.is_visited(x, y) {
                        continue;
                    }
                    let bit = self.bit(x, y, plane);
                    if known {
                        known = false;
                    } else {
                        let label = self.state.zc_context(x, y, self.orient);
                        self.put(label, bit);
                    }
                    if bit == 1 {
                        self.sign(x, y);
                    }
                }
            }
        }
        if symbol {
            for bit in [1, 0, 1, 0] {
                self.put(CTX_UNI, bit);
            }
        }
        for y in 0..self.h {
            for x in 0..self.w {
                self.state.set_visited(x, y, false);
            }
        }
    }
}

#[derive(Clone, Default)]
struct CodedBlock {
    planes: u32,
    passes: u32,
    segments: Vec<(u32, Vec<u8>)>,
}

fn ends_segment(style: u8, pass: u32, last: u32) -> bool {
    if pass == last || style & RESTART != 0 {
        true
    } else if style & LAZY == 0 || pass < 9 {
        false
    } else {
        pass == 9 || pass % 3 != 1
    }
}

fn encode_block(values: &[i32], w: u32, h: u32, kind: BandKind, style: u8) -> CodedBlock {
    let top = values.iter().map(|v| v.unsigned_abs()).max().unwrap_or(0);
    let planes = 32 - top.leading_zeros();
    if planes == 0 {
        return CodedBlock::default();
    }
    let mut state = BlockState::new(w, h);
    state.set_causal(style & CAUSAL != 0);
    let mut e = BlockEncoder {
        values,
        state,
        orient: match kind {
            BandKind::Ll => Orientation::Ll,
            BandKind::Hl => Orientation::Hl,
            BandKind::Lh => Orientation::Lh,
            BandKind::Hh => Orientation::Hh,
        },
        cx: fresh_contexts(),
        mq: MqEncoder::new(),
        raw: RawWriter {
            out: Vec::new(),
            ct: 0,
        },
        bypass: false,
        w,
        h,
    };
    let passes = 3 * planes - 2;
    let mut segments = Vec::new();
    let mut open = 0;
    for pass in 0..passes {
        let plane = planes - 1 - (pass + 2) / 3;
        e.bypass = style & LAZY != 0 && pass >= 10 && pass % 3 != 0;
        match pass % 3 {
            1 => e.significance(plane),
            2 => e.refinement(plane),
            _ => e.cleanup(plane, style & SEGSYM != 0),
        }
        if style & RESET != 0 {
            e.cx = fresh_contexts();
        }
        open += 1;
        if ends_segment(style, pass, passes - 1) {
            let bytes = if e.bypass {
                e.raw.ct = 0;
                std::mem::take(&mut e.raw.out)
            } else {
                std::mem::replace(&mut e.mq, MqEncoder::new()).flush()
            };
            segments.push((open, bytes));
            open = 0;
        }
    }
    CodedBlock {
        planes,
        passes,
        segments,
    }
}

struct PackedBits {
    out: Vec<u8>,
    buf: u32,
    ct: u32,
}

impl PackedBits {
    fn new() -> Self {
        PackedBits {
            out: Vec::new(),
            buf: 0,
            ct: 8,
        }
    }

    fn byte_out(&mut self) {
        self.ct = if self.buf == 0xFF { 7 } else { 8 };
        self.out.push(self.buf as u8);
        self.buf = 0;
    }

    fn bit(&mut self, b: u32) {
        if self.ct == 0 {
            self.byte_out();
        }
        self.ct -= 1;
        self.buf |= (b & 1) << self.ct;
    }

    fn bits(&mut self, value: u32, n: u32) {
        for i in (0..n).rev() {
            self.bit(value >> i);
        }
    }

    fn finish(mut self) -> Vec<u8> {
        self.byte_out();
        if self.ct == 7 {
            self.byte_out();
        }
        self.out
    }
}

struct TreeWriter {
    levels: Vec<(usize, Vec<(u32, u32, bool)>)>,
}

impl TreeWriter {
    fn new(w: usize, h: usize, leaves: &[u32]) -> Self {
        let mut levels = vec![(w, leaves.iter().map(|&v| (v, 0, false)).collect::<Vec<_>>())];
        let (mut cw, mut ch) = (w, h);
        while cw * ch > 1 {
            let (pw, ph) = (cw.div_ceil(2), ch.div_ceil(2));
            let mut up = vec![(u32::MAX, 0, false); pw * ph];
            for (i, node) in levels[levels.len() - 1].1.iter().enumerate() {
                let at = (i / cw / 2) * pw + (i % cw) / 2;
                up[at].0 = up[at].0.min(node.0);
            }
            levels.push((pw, up));
            cw = pw;
            ch = ph;
        }
        TreeWriter { levels }
    }

    fn write(&mut self, leaf: usize, threshold: u32, out: &mut PackedBits) {
        let w = self.levels[0].0;
        let (x, y) = (leaf % w, leaf / w);
        let mut low = 0;
        for k in (0..self.levels.len()).rev() {
            let (lw, nodes) = &mut self.levels[k];
            let node = &mut nodes[(y >> k) * *lw + (x >> k)];
            low = low.max(node.1);
            while low < threshold && !node.2 {
                if low == node.0 {
                    out.bit(1);
                    node.2 = true;
                } else {
                    out.bit(0);
                    low += 1;
                }
            }
            if node.2 {
                low = node.0;
            }
            node.1 = low;
        }
    }
}

fn put_passes(out: &mut PackedBits, n: u32) {
    if n == 1 {
        out.bit(0);
    } else if n == 2 {
        out.bits(0b10, 2);
    } else if n <= 5 {
        out.bits(0b1100 + (n - 3), 4);
    } else if n <= 36 {
        out.bits(0b1_1110_0000 + (n - 6), 9);
    } else {
        out.bits(0xFF80 + (n - 37), 16);
    }
}

fn forward_5_3(s: &mut [i32], cas: usize) {
    let n = s.len();
    if n <= 1 {
        if n == 1 && cas == 1 {
            s[0] *= 2;
        }
        return;
    }
    let mirror = |i: isize| {
        let period = 2 * (n as isize - 1);
        let m = i.rem_euclid(period);
        (if m < n as isize { m } else { period - m }) as usize
    };
    for i in (1 - cas..n).step_by(2) {
        s[i] -= (s[mirror(i as isize - 1)] + s[mirror(i as isize + 1)]) >> 1;
    }
    for i in (cas..n).step_by(2) {
        s[i] += (s[mirror(i as isize - 1)] + s[mirror(i as isize + 1)] + 2) >> 2;
    }
}

fn gather(g: &[i32], w: usize, h: usize, cx: usize, cy: usize, origin: (u32, u32)) -> Band<i32> {
    let (bw, bh) = ((w - cx.min(w)).div_ceil(2), (h - cy.min(h)).div_ceil(2));
    let mut data = Vec::new();
    for y in 0..bh {
        for x in 0..bw {
            data.push(g[(2 * y + cy) * w + 2 * x + cx]);
        }
    }
    Band {
        origin,
        width: bw,
        height: bh,
        data,
    }
}

fn forward_bands(samples: &[i32], rect: Rect, levels: u8) -> Bands<i32> {
    let mut data = samples.to_vec();
    let (mut w, mut h) = ((rect.x1 - rect.x0) as usize, (rect.y1 - rect.y0) as usize);
    let (mut u, mut v) = (rect.x0, rect.y0);
    let mut details = Vec::new();
    for _ in 0..levels {
        let (cx, cy) = ((u & 1) as usize, (v & 1) as usize);
        for x in 0..w {
            let mut col: Vec<i32> = (0..h).map(|y| data[y * w + x]).collect();
            forward_5_3(&mut col, cy);
            for (y, c) in col.into_iter().enumerate() {
                data[y * w + x] = c;
            }
        }
        for y in 0..h {
            forward_5_3(&mut data[y * w..(y + 1) * w], cx);
        }
        let (lx, hx, ly, hy) = (u.div_ceil(2), u / 2, v.div_ceil(2), v / 2);
        let ll = gather(&data, w, h, cx, cy, (lx, ly));
        details.push(DetailBands {
            hl: gather(&data, w, h, 1 - cx, cy, (hx, ly)),
            lh: gather(&data, w, h, cx, 1 - cy, (lx, hy)),
            hh: gather(&data, w, h, 1 - cx, 1 - cy, (hx, hy)),
        });
        w = ll.width;
        h = ll.height;
        (u, v) = (lx, ly);
        data = ll.data;
    }
    details.reverse();
    Bands {
        ll: Band {
            origin: (u, v),
            width: w,
            height: h,
            data,
        },
        levels: details,
    }
}

#[derive(Clone)]
struct Recipe {
    size: (u32, u32),
    offset: (u32, u32),
    tile: (u32, u32),
    tile_offset: (u32, u32),
    sampling: Vec<(u8, u8)>,
    signed: bool,
    levels: u8,
    style: u8,
    mct: bool,
    progression: Progression,
    precincts: Vec<(u8, u8)>,
    delimiters: bool,
    packed: bool,
    irreversible: bool,
    roi: u8,
    hints: bool,
}

impl Recipe {
    fn plain(w: u32, h: u32, levels: u8) -> Self {
        Recipe {
            size: (w, h),
            offset: (0, 0),
            tile: (w, h),
            tile_offset: (0, 0),
            sampling: vec![(1, 1)],
            signed: false,
            levels,
            style: 0,
            mct: false,
            progression: Progression::Lrcp,
            precincts: Vec::new(),
            delimiters: false,
            packed: false,
            irreversible: false,
            roi: 0,
            hints: false,
        }
    }

    fn exponents(&self) -> Vec<u8> {
        let extra = u8::from(self.mct);
        let mut exps = vec![8 + extra];
        for _ in 0..self.levels {
            exps.extend_from_slice(&[9 + extra, 9 + extra, 10 + extra]);
        }
        exps
    }

    fn header(&self) -> MainHeader {
        MainHeader::new(
            Siz {
                x_size: self.size.0,
                y_size: self.size.1,
                x_offset: self.offset.0,
                y_offset: self.offset.1,
                tile_width: self.tile.0,
                tile_height: self.tile.1,
                tile_x_offset: self.tile_offset.0,
                tile_y_offset: self.tile_offset.1,
                components: self
                    .sampling
                    .iter()
                    .map(|&(x_sampling, y_sampling)| SizComponent {
                        bit_depth: 8,
                        signed: self.signed,
                        x_sampling,
                        y_sampling,
                    })
                    .collect(),
            },
            Cod {
                progression: self.progression,
                layers: 1,
                decomposition_levels: self.levels,
                code_block_width: 1,
                code_block_height: 2,
                code_block_style: self.style,
                use_sop: self.delimiters,
                use_eph: self.delimiters,
                multiple_component_transform: self.mct,
                transform: if self.irreversible {
                    Transform::Irreversible97
                } else {
                    Transform::Reversible53
                },
                precinct_sizes: self.precincts.clone(),
            },
            Qcd {
                style: QuantStyle::Unquantized,
                guard_bits: 2,
                steps: self.exponents().into_iter().map(|e| (e, 0)).collect(),
            },
        )
    }
}

fn segment(out: &mut Vec<u8>, code: u16, body: &[u8]) {
    out.extend_from_slice(&code.to_be_bytes());
    out.extend_from_slice(&(body.len() as u16 + 2).to_be_bytes());
    out.extend_from_slice(body);
}

fn main_header(r: &Recipe) -> Vec<u8> {
    let mut out = vec![0xFF, 0x4F];
    let mut siz = vec![0, 0];
    for v in [
        r.size.0, r.size.1, r.offset.0, r.offset.1, r.tile.0, r.tile.1, r.tile_offset.0,
        r.tile_offset.1,
    ] {
        siz.extend_from_slice(&v.to_be_bytes());
    }
    siz.extend_from_slice(&(r.sampling.len() as u16).to_be_bytes());
    for &(x, y) in &r.sampling {
        siz.extend_from_slice(&[7 | if r.signed { 0x80 } else { 0 }, x, y]);
    }
    segment(&mut out, 0xFF51, &siz);
    let order = match r.progression {
        Progression::Lrcp => 0,
        Progression::Rlcp => 1,
        Progression::Rpcl => 2,
        Progression::Pcrl => 3,
        Progression::Cprl => 4,
    };
    let scod = u8::from(!r.precincts.is_empty()) | if r.delimiters { 6 } else { 0 };
    let wavelet = u8::from(!r.irreversible);
    let mut cod = vec![scod, order, 0, 1, u8::from(r.mct), r.levels, 1, 2, r.style, wavelet];
    cod.extend(r.precincts.iter().map(|&(x, y)| y << 4 | x));
    segment(&mut out, 0xFF52, &cod);
    if r.irreversible {
        segment(&mut out, 0xFF5C, &[2 << 5 | 1, 9 << 3, 0]);
    } else {
        let mut qcd = vec![2 << 5];
        qcd.extend(r.exponents().into_iter().map(|e| e << 3));
        segment(&mut out, 0xFF5C, &qcd);
    }
    if r.roi > 0 {
        for c in 0..r.sampling.len() {
            segment(&mut out, 0xFF5E, &[c as u8, 0, r.roi]);
        }
    }
    if r.hints {
        segment(&mut out, 0xFF55, &[0, 0x40, 0, 0, 0x12, 0x34]);
        segment(&mut out, 0xFF63, &[0, 1, 0, 2]);
        segment(&mut out, 0xFF64, &[0, 1, b'h', b'i']);
    }
    out
}

fn tile_packets(r: &Recipe, header: &MainHeader, tile: u32, planes: &[Vec<i32>]) -> (Vec<u8>, Vec<u8>) {
    let mut geoms: Vec<Vec<ResolutionGeom>> = Vec::new();
    let mut coded: Vec<Vec<Vec<Vec<CodedBlock>>>> = Vec::new();
    for (c, plane) in planes.iter().enumerate() {
        let rect = header.siz.tile_component_rect(tile, c).unwrap();
        let (mut p, mut b) = (usize::MAX, usize::MAX);
        let geom = resolution_geoms(header, tile, c, &mut p, &mut b).unwrap();
        let bands = forward_bands(plane, rect, r.levels);
        let mut resolutions = Vec::new();
        for (res, g) in geom.iter().enumerate() {
            let mut per_band = Vec::new();
            for (i, bg) in g.bands.iter().enumerate() {
                let band = if res == 0 {
                    &bands.ll
                } else {
                    let d = &bands.levels[res - 1];
                    [&d.hl, &d.lh, &d.hh][i]
                };
                assert_eq!((band.width, band.height), (bg.width, bg.height));
                let blocks = bg.blocks.iter().map(|&(x, y, w, h)| {
                    let mut values = Vec::new();
                    for by in y..y + h {
                        for bx in x..x + w {
                            let v = band.data[by * band.width + bx];
                            let inside = r.roi > 0 && (bx / 3 + by / 2) % 2 == 0;
                            values.push(if inside { v << r.roi } else { v });
                        }
                    }
                    encode_block(&values, w as u32, h as u32, bg.kind, r.style)
                });
                per_band.push(blocks.collect::<Vec<_>>());
            }
            resolutions.push(per_band);
        }
        geoms.push(geom);
        coded.push(resolutions);
    }
    let walk = PacketWalk {
        siz: &header.siz,
        tile: header.siz.tile_rect(tile).unwrap(),
        geoms: &geoms,
    };
    let mut headers = Vec::new();
    let mut data = Vec::new();
    for (index, (_, res, comp, precinct)) in packet_order(header, &walk).into_iter().enumerate() {
        let mut bits = PackedBits::new();
        let mut body = Vec::new();
        bits.bit(1);
        for (i, bg) in geoms[comp][res].bands.iter().enumerate() {
            let p = &bg.precincts[precinct];
            let owned: Vec<&CodedBlock> = p.blocks.iter().map(|&k| &coded[comp][res][i][k]).collect();
            if owned.is_empty() {
                continue;
            }
            let band = if res == 0 { 0 } else { 3 * res - 2 + i };
            let magnitude = u32::from(r.exponents()[band]) + 1 + u32::from(r.roi);
            let included: Vec<u32> = owned.iter().map(|b| u32::from(b.passes == 0)).collect();
            let zeros: Vec<u32> = owned.iter().map(|b| magnitude - b.planes).collect();
            let mut inclusion = TreeWriter::new(p.cols, p.rows, &included);
            let mut zero = TreeWriter::new(p.cols, p.rows, &zeros);
            for (k, block) in owned.iter().enumerate() {
                inclusion.write(k, 1, &mut bits);
                if block.passes == 0 {
                    continue;
                }
                zero.write(k, zeros[k] + 1, &mut bits);
                put_passes(&mut bits, block.passes);
                let log2 = |n: u32| 31 - n.leading_zeros();
                let mut lblock = 3;
                while block.segments.iter().any(|(n, s)| s.len() >> (lblock + log2(*n)) != 0) {
                    bits.bit(1);
                    lblock += 1;
                }
                bits.bit(0);
                for (n, s) in &block.segments {
                    bits.bits(s.len() as u32, lblock + log2(*n));
                    body.extend_from_slice(s);
                }
            }
        }
        let mut head = bits.finish();
        if r.delimiters {
            head.extend_from_slice(&[0xFF, 0x92]);
            data.extend_from_slice(&[0xFF, 0x91, 0x00, 0x04]);
            data.extend_from_slice(&(index as u16).to_be_bytes());
        }
        if r.packed {
            headers.extend_from_slice(&head);
        } else {
            data.extend_from_slice(&head);
        }
        data.extend_from_slice(&body);
    }
    (headers, data)
}

fn tile_part(tile: u32, part: u8, parts: u8, headers: &[u8], data: &[u8]) -> Vec<u8> {
    let mut markers = Vec::new();
    if !headers.is_empty() {
        let mut body = vec![0];
        body.extend_from_slice(headers);
        segment(&mut markers, 0xFF61, &body);
    }
    let mut sot = (tile as u16).to_be_bytes().to_vec();
    let length = 12 + markers.len() as u32 + 2 + data.len() as u32;
    sot.extend_from_slice(&length.to_be_bytes());
    sot.extend_from_slice(&[part, parts]);
    let mut out = Vec::new();
    segment(&mut out, 0xFF90, &sot);
    out.extend_from_slice(&markers);
    out.extend_from_slice(&[0xFF, 0x93]);
    out.extend_from_slice(data);
    out
}

fn picture(header: &MainHeader) -> Vec<Vec<i32>> {
    let mut seed = 12345u32;
    (0..header.siz.components.len())
        .map(|c| {
            let r = header.siz.component_rect(c).unwrap();
            let mut out = Vec::new();
            for y in r.y0..r.y1 {
                for x in r.x0..r.x1 {
                    seed = seed.wrapping_mul(1_103_515_245).wrapping_add(12345);
                    let noise = (seed >> 16) as i32 % 23;
                    let v = (3 * x as i32 + 5 * y as i32 + 40 * c as i32 + noise) % 256;
                    out.push(v - 128);
                }
            }
            out
        })
        .collect()
}

fn crop(plane: &[i32], whole: Rect, part: Rect) -> Vec<i32> {
    let w = (whole.x1 - whole.x0) as usize;
    let mut out = Vec::new();
    for y in part.y0..part.y1 {
        let row = (y - whole.y0) as usize * w;
        let (a, b) = ((part.x0 - whole.x0) as usize, (part.x1 - whole.x0) as usize);
        out.extend_from_slice(&plane[row + a..row + b]);
    }
    out
}

fn forward_rct(planes: &mut [Vec<i32>]) {
    for i in 0..planes[0].len() {
        let (r, g, b) = (planes[0][i], planes[1][i], planes[2][i]);
        planes[0][i] = (r + 2 * g + b) >> 2;
        planes[1][i] = b - g;
        planes[2][i] = r - g;
    }
}

fn encode(r: &Recipe, parts: u8) -> (Vec<u8>, Vec<Vec<i32>>) {
    let header = r.header();
    let image = picture(&header);
    let mut out = main_header(r);
    for tile in 0..header.siz.num_tiles() {
        let mut planes: Vec<Vec<i32>> = (0..image.len())
            .map(|c| {
                let whole = header.siz.component_rect(c).unwrap();
                let part = header.siz.tile_component_rect(tile, c).unwrap();
                crop(&image[c], whole, part)
            })
            .collect();
        if r.mct && !r.irreversible {
            forward_rct(&mut planes);
        }
        let (headers, data) = tile_packets(r, &header, tile, &planes);
        let cut = data.len() / usize::from(parts);
        for p in 0..parts {
            let from = cut * usize::from(p);
            let to = if p + 1 == parts { data.len() } else { from + cut };
            let own: &[u8] = if p == 0 { &headers } else { &[] };
            out.extend_from_slice(&tile_part(tile, p, parts, own, &data[from..to]));
        }
    }
    out.extend_from_slice(&[0xFF, 0xD9]);
    let shift = if r.signed { 0 } else { 128 };
    let shown = image
        .into_iter()
        .map(|p| p.into_iter().map(|v| v + shift).collect())
        .collect();
    (out, shown)
}

fn decoded(bytes: &[u8]) -> Image {
    match decode(bytes).unwrap() {
        Decoded::Image(image) => image,
        Decoded::Lossy(_) => panic!("a reversible codestream waits for nothing"),
    }
}

fn check(r: &Recipe) {
    let (bytes, want) = encode(r, 1);
    let image = decoded(&bytes);
    assert_eq!(image.components.len(), want.len());
    for (c, plane) in want.iter().enumerate() {
        assert_eq!(&image.components[c].samples, plane, "component {c}");
    }
}

#[test]
fn one_tile_decodes_to_its_image() {
    for levels in 0..4 {
        check(&Recipe::plain(37, 29, levels));
    }
}

#[test]
fn tiny_images_decode() {
    for (w, h) in [(1, 1), (1, 9), (9, 1), (2, 3)] {
        check(&Recipe::plain(w, h, 3));
    }
}

#[test]
fn signed_samples_decode() {
    let mut r = Recipe::plain(20, 20, 2);
    r.signed = true;
    check(&r);
}

#[test]
fn tiles_off_the_origin_decode() {
    let mut r = Recipe::plain(61, 47, 2);
    r.offset = (7, 5);
    r.tile = (17, 13);
    r.tile_offset = (3, 2);
    check(&r);
}

#[test]
fn sub_sampled_components_decode() {
    let mut r = Recipe::plain(45, 33, 2);
    r.sampling = vec![(1, 1), (2, 1), (2, 2), (3, 1)];
    r.offset = (3, 1);
    r.tile = (23, 19);
    r.tile_offset = (1, 1);
    check(&r);
}

#[test]
fn the_colour_transform_is_undone() {
    let mut r = Recipe::plain(24, 18, 2);
    r.sampling = vec![(1, 1); 4];
    r.mct = true;
    check(&r);
}

#[test]
fn every_progression_decodes() {
    for progression in [
        Progression::Lrcp,
        Progression::Rlcp,
        Progression::Rpcl,
        Progression::Pcrl,
        Progression::Cprl,
    ] {
        let mut r = Recipe::plain(50, 41, 2);
        r.sampling = vec![(1, 1), (2, 2)];
        r.progression = progression;
        r.precincts = vec![(3, 3), (4, 3), (4, 4)];
        r.tile = (33, 41);
        check(&r);
    }
}

#[test]
fn code_block_styles_decode() {
    for style in [RESET, CAUSAL, SEGSYM, RESTART, RESET | CAUSAL | SEGSYM, RESTART | RESET] {
        let mut r = Recipe::plain(33, 27, 2);
        r.style = style;
        check(&r);
    }
}

#[test]
fn the_arithmetic_bypass_decodes() {
    for style in [LAZY, LAZY | RESTART, LAZY | RESET | CAUSAL | SEGSYM] {
        let mut r = Recipe::plain(33, 27, 2);
        r.style = style;
        check(&r);
    }
}

#[test]
fn a_region_of_interest_is_shifted_back() {
    for roi in [12, 16] {
        let mut r = Recipe::plain(33, 27, 2);
        r.roi = roi;
        check(&r);
    }
}

#[test]
fn hints_change_nothing() {
    let mut r = Recipe::plain(33, 27, 2);
    let (plain, _) = encode(&r, 1);
    r.hints = true;
    let (hinted, _) = encode(&r, 1);
    assert_ne!(plain, hinted);
    assert_eq!(decoded(&plain), decoded(&hinted));
}

#[test]
fn packet_delimiters_are_read_past() {
    let mut r = Recipe::plain(33, 27, 2);
    r.delimiters = true;
    check(&r);
}

#[test]
fn packed_headers_decode_like_inline_ones() {
    let mut r = Recipe::plain(33, 27, 2);
    let (inline, want) = encode(&r, 1);
    r.packed = true;
    let (packed, _) = encode(&r, 1);
    assert_ne!(inline, packed);
    assert_eq!(decoded(&inline), decoded(&packed));
    assert_eq!(decoded(&packed).components[0].samples, want[0]);
}

#[test]
fn tile_parts_join_in_order() {
    let mut r = Recipe::plain(40, 30, 2);
    r.tile = (21, 30);
    let (whole, _) = encode(&r, 1);
    let (split, _) = encode(&r, 3);
    assert_eq!(decoded(&whole), decoded(&split));
}

#[test]
fn a_reduction_gives_the_coarser_resolution() {
    let r = Recipe::plain(37, 29, 3);
    let (bytes, _) = encode(&r, 1);
    let header = r.header();
    let image = picture(&header);
    let rect = header.siz.component_rect(0).unwrap();
    for reduction in 0..=3u8 {
        let options = DecodeOptions::default().with_resolution_reduction(reduction);
        let Decoded::Image(out) = decode_with(&bytes, options).unwrap() else {
            panic!("a reversible codestream waits for nothing");
        };
        let coarse = forward_bands(&image[0], rect, reduction).ll;
        let want: Vec<i32> = coarse.data.iter().map(|v| (v + 128).clamp(0, 255)).collect();
        assert_eq!((out.width, out.height), (coarse.width as u32, coarse.height as u32));
        assert_eq!(out.components[0].samples, want, "reduction {reduction}");
    }
    let options = DecodeOptions::default().with_resolution_reduction(4);
    let Err(e) = decode_with(&bytes, options) else {
        panic!("nothing is left at reduction 4");
    };
    assert_eq!(
        e,
        Error::InvalidOptions(
            "resolution reduction 4 discards all 4 resolutions of component 0 in tile 0".into()
        )
    );
}

#[test]
fn no_reduction_is_a_plain_decode() {
    let (bytes, _) = encode(&Recipe::plain(19, 23, 2), 1);
    let Decoded::Image(out) = decode_with(&bytes, DecodeOptions::default()).unwrap() else {
        panic!("a reversible codestream waits for nothing");
    };
    assert_eq!(out, decoded(&bytes));
}

#[test]
fn an_irreversible_tile_waits_for_its_synthesis() {
    let mut r = Recipe::plain(20, 12, 1);
    r.irreversible = true;
    r.tile = (13, 12);
    r.style = SEGSYM;
    let (bytes, _) = encode(&r, 1);
    let Decoded::Lossy(first) = decode(&bytes).unwrap() else {
        panic!("the irreversible wavelet needs a synthesis");
    };
    assert_eq!(first.header().components[0].coding.transform, Transform::Irreversible97);
    match &first.samples()[0] {
        Samples::Irreversible(bands, steps) => {
            assert_eq!((bands.ll.width, bands.ll.height), (7, 6));
            assert_eq!(steps.len(), 4);
        }
        Samples::Reversible(_) => panic!("expected coefficients"),
    }
    let Decoded::Lossy(second) = first.resume(vec![vec![-5; 13 * 12]]).unwrap() else {
        panic!("the second tile waits too");
    };
    let Decoded::Image(image) = second.resume(vec![vec![9; 7 * 12]]).unwrap() else {
        panic!("no tile is left");
    };
    let c = &image.components[0];
    assert_eq!(c.sample(0, 0), Some(123));
    assert_eq!(c.sample(12, 11), Some(123));
    assert_eq!(c.sample(13, 0), Some(137));
    assert_eq!(c.sample(19, 11), Some(137));
}

#[test]
fn a_synthesis_must_fit_its_tile() {
    let mut r = Recipe::plain(8, 8, 1);
    r.irreversible = true;
    let (bytes, _) = encode(&r, 1);
    for planes in [vec![], vec![vec![0; 63]], vec![vec![0; 64], vec![0; 64]]] {
        let Decoded::Lossy(tile) = decode(&bytes).unwrap() else {
            panic!("the irreversible wavelet needs a synthesis");
        };
        assert!(matches!(tile.resume(planes), Err(Error::Inconsistent(_))));
    }
}

#[test]
fn a_truncated_tile_is_rejected() {
    let (bytes, _) = encode(&Recipe::plain(32, 32, 2), 1);
    for cut in [bytes.len() - 3, bytes.len() / 2, 60, 3] {
        assert!(decode(&bytes[..cut]).is_err(), "cut at {cut}");
    }
}

#[test]
fn damaged_bytes_never_panic() {
    let (bytes, _) = encode(&Recipe::plain(16, 16, 1), 1);
    for i in 0..bytes.len() {
        let mut bad = bytes.clone();
        bad[i] ^= 0x5A;
        let _ = decode(&bad);
    }
}
