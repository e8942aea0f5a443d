//! Packets: geometry, headers, layers, delimiters, segments and progression.

use rust_j2k::codestream::markers::{
    Cod, Progression, Qcd, QuantStyle, Siz, SizComponent, Transform,
};
use rust_j2k::codestream::{MainHeader, Tile, TileHeader};
use rust_j2k::tier2::bio::BitReader;
use rust_j2k::tier2::geometry::{
    resolution_geoms, BandGeom, PrecinctGeom, ResolutionGeom, MAX_PRECINCTS,
};
use rust_j2k::tier2::orders::packet_order;
use rust_j2k::tier2::packet::{
    parse_packet, read_num_passes, BandState, Delimiters, PacketStreams,
};
use rust_j2k::tier2::progression::PacketWalk;
use rust_j2k::tier2::{
    build_subbands, decode_packets, BandKind, CodeBlock, CodedSegment, Subband,
};
use rust_j2k::{Error, Result};
use std::borrow::Cow;
use std::collections::BTreeSet;
use std::time::Instant;

fn all_bytes(block: &CodeBlock<'_>) -> Vec<u8> {
    block.segments.iter().flat_map(|s| s.bytes()).collect()
}

fn only_segment<'a, 'b>(block: &'a CodeBlock<'b>) -> &'a CodedSegment<'b> {
    assert_eq!(block.segments.len(), 1, "the default style has one segment");
    &block.segments[0]
}

fn parse_one_packet<'a>(data: &'a [u8], bands: &Vec<BandGeom>) -> Result<(Vec<Subband<'a>>, usize)> {
    let (subbands, next) = parse_layers(data, bands, 1)?;
    Ok((subbands, next))
}

fn parse_layers<'a>(
    data: &'a [u8],
    bands: &Vec<BandGeom>,
    layers: u32,
) -> Result<(Vec<Subband<'a>>, usize)> {
    parse_layers_with(
        data,
        bands,
        layers,
        Delimiters {
            sop: false,
            eph: false,
        },
    )
}

fn parse_layers_with<'a>(
    data: &'a [u8],
    bands: &Vec<BandGeom>,
    layers: u32,
    delimiters: Delimiters,
) -> Result<(Vec<Subband<'a>>, usize)> {
    parse_layers_styled(data, bands, layers, delimiters, 0)
}

fn parse_layers_styled<'a>(
    data: &'a [u8],
    bands: &Vec<BandGeom>,
    layers: u32,
    delimiters: Delimiters,
    style: u8,
) -> Result<(Vec<Subband<'a>>, usize)> {
    let mut states: Vec<BandState<'a>> = bands.iter().map(BandState::new).collect();
    let mut streams = streams_over(data);
    for layer in 0..layers {
        parse_packet(&mut streams, layer, layer, delimiters, style, bands, 0, &mut states)?;
    }
    Ok((build_subbands(bands, &states)?, streams.body_pos))
}

fn streams_over(data: &[u8]) -> PacketStreams<'_> {
    PacketStreams {
        header: data,
        header_pos: 0,
        data,
        body_pos: 0,
        packed: false,
    }
}

struct PackedHeader {
    out: Vec<u8>,
    buf: u32,
    ct: i32,
}

impl PackedHeader {
    fn new() -> Self {
        PackedHeader {
            out: Vec::new(),
            buf: 0,
            ct: 8,
        }
    }

    fn byteout(&mut self) {
        self.ct = if self.buf == 0xFF { 7 } else { 8 };
        self.out.push(self.buf as u8);
        self.buf = 0;
    }

    fn bit(&mut self, b: u32) {
        if self.ct == 0 {
            self.byteout();
        }
        self.ct -= 1;
        self.buf |= (b & 1) << self.ct;
    }

    fn bits(&mut self, value: u32, n: u32) {
        for i in (0..n).rev() {
            self.bit((value >> i) & 1);
        }
    }

    fn finish(mut self) -> Vec<u8> {
        self.byteout();
        if self.ct == 7 {
            self.byteout();
        }
        self.out
    }
}

fn header(x_size: u32, y_size: u32, levels: u8, cblk_exp: u8) -> MainHeader {
    MainHeader::new(
        Siz {
            x_size,
            y_size,
            x_offset: 0,
            y_offset: 0,
            tile_width: x_size,
            tile_height: y_size,
            tile_x_offset: 0,
            tile_y_offset: 0,
            components: vec![SizComponent {
                bit_depth: 8,
                signed: false,
                x_sampling: 1,
                y_sampling: 1,
            }],
        },
        Cod {
            progression: Progression::Lrcp,
            layers: 1,
            decomposition_levels: levels,
            code_block_width: cblk_exp - 2,
            code_block_height: cblk_exp - 2,
            code_block_style: 0,
            use_sop: false,
            use_eph: false,
            multiple_component_transform: false,
            transform: Transform::Reversible53,
            precinct_sizes: Vec::new(),
        },
        Qcd {
            style: QuantStyle::Unquantized,
            guard_bits: 2,
            steps: vec![(8, 0)],
        },
    )
}

fn tile(data: &[u8]) -> Tile<'_> {
    Tile {
        index: 0,
        header: TileHeader::default(),
        data: Cow::Borrowed(data),
        packed_headers: Vec::new(),
    }
}

fn single_block_band(kind: BandKind, width: usize, height: usize) -> BandGeom {
    BandGeom {
        kind,
        origin: (0, 0),
        width,
        height,
        block_cols: 1,
        block_rows: 1,
        blocks: vec![(0, 0, width, height)],
        precincts: one_precinct(1, 1),
    }
}

fn one_precinct(cols: usize, rows: usize) -> Vec<PrecinctGeom> {
    vec![PrecinctGeom {
        cols,
        rows,
        blocks: (0..cols * rows).collect(),
    }]
}

fn geoms_of(header: &MainHeader, tile: u32, comp: usize) -> Result<Vec<ResolutionGeom>> {
    let mut precincts = usize::MAX;
    let mut blocks = usize::MAX;
    resolution_geoms(header, tile, comp, &mut precincts, &mut blocks)
}

#[test]
fn geometry_single_block_per_subband() {
    let geoms = geoms_of(&header(100, 100, 2, 6), 0, 0).unwrap();
    assert_eq!(geoms.len(), 3);

    let ll = &geoms[0].bands[0];
    assert_eq!(ll.kind, BandKind::Ll);
    assert_eq!((ll.width, ll.height), (25, 25));
    assert_eq!((ll.block_cols, ll.block_rows), (1, 1));

    assert_eq!(geoms[1].bands.len(), 3);
    assert_eq!(geoms[1].bands[0].kind, BandKind::Hl);
    for b in &geoms[1].bands {
        assert_eq!((b.width, b.height), (25, 25));
    }

    for b in &geoms[2].bands {
        assert_eq!((b.width, b.height), (50, 50));
    }
}

#[test]
fn geometry_multi_block_grid() {
    let geoms = geoms_of(&header(200, 200, 1, 5), 0, 0).unwrap();
    let ll = &geoms[0].bands[0];
    assert_eq!((ll.width, ll.height), (100, 100));
    assert_eq!((ll.block_cols, ll.block_rows), (4, 4));
    assert_eq!(ll.blocks[0], (0, 0, 32, 32));
    let last = ll.blocks[ll.block_cols * ll.block_rows - 1];
    assert_eq!(last, (96, 96, 4, 4));
}

#[test]
fn geometry_max_decomposition_levels() {
    let geoms = geoms_of(&header(2, 2, 32, 6), 0, 0).unwrap();
    assert_eq!(geoms.len(), 33);
    assert_eq!((geoms[0].bands[0].width, geoms[0].bands[0].height), (1, 1));
}

#[test]
fn geometry_splits_past_the_maximal_precinct_extent() {
    let wide = geoms_of(&header(32769, 16, 1, 6), 0, 0).unwrap();
    assert_eq!(
        (wide[1].precincts_wide, wide[1].precincts_high),
        (2, 1),
        "the finest resolution spans two maximal precincts across"
    );
    let tall = geoms_of(&header(16, 32769, 1, 6), 0, 0).unwrap();
    assert_eq!((tall[1].precincts_wide, tall[1].precincts_high), (1, 2));
}

#[test]
fn geometry_accepts_full_precinct_extent() {
    let geoms = geoms_of(&header(32768, 16, 1, 6), 0, 0).unwrap();
    assert_eq!(geoms[1].bands[0].width, 16384);
}

#[test]
fn geometry_rejects_a_precinct_bomb_before_allocating() {
    let mut header = header(1, 1 << 24, 1, 6);
    header.components[0].coding.precinct_sizes = vec![(1, 1), (1, 1)];

    let mut precincts = MAX_PRECINCTS;
    let mut blocks = usize::MAX;
    let start = Instant::now();
    let result = resolution_geoms(&header, 0, 0, &mut precincts, &mut blocks);
    let elapsed = start.elapsed();

    assert!(
        matches!(result, Err(Error::Unsupported(_))),
        "a 1×2^24 tile-component at a 2^1 precinct must be rejected"
    );
    assert!(
        elapsed.as_millis() < 100,
        "the guard must fire before the precincts are built, not after ({elapsed:?})"
    );
}

#[test]
fn the_precinct_budget_is_shared_across_components() {
    let mut header = header(1024, 1024, 1, 6);
    header.siz.components.push(header.siz.components[0]);
    let again = MainHeader::new(header.siz, header.cod, header.qcd);
    let mut header = again;
    for comp in &mut header.components {
        comp.coding.precinct_sizes = vec![(1, 1), (1, 1)];
    }

    let mut precincts = MAX_PRECINCTS;
    let mut blocks = usize::MAX;
    let first = resolution_geoms(&header, 0, 0, &mut precincts, &mut blocks);
    let second = resolution_geoms(&header, 0, 1, &mut precincts, &mut blocks);
    assert!(
        first.is_err() || matches!(second, Err(Error::Unsupported(_))),
        "two components sharing the budget must not both allocate their precincts"
    );
}

#[test]
fn geometry_rejects_oversized_code_block() {
    let err = geoms_of(&header(64, 64, 1, 13), 0, 0);
    assert!(matches!(err, Err(Error::Marker(_))));
}

#[test]
fn num_passes_table() {
    let cases: &[(u32, &[u32])] = &[
        (1, &[0]),
        (2, &[1, 0]),
        (3, &[1, 1, 0, 0]),
        (5, &[1, 1, 1, 0]),
        (6, &[1, 1, 1, 1, 0, 0, 0, 0, 0]),
        (36, &[1, 1, 1, 1, 1, 1, 1, 1, 0]),
        (37, &[1, 1, 1, 1, 1, 1, 1, 1, 1, 0, 0, 0, 0, 0, 0, 0]),
        (164, &[1, 1, 1, 1, 1, 1, 1, 1, 1, 1, 1, 1, 1, 1, 1, 1]),
    ];
    for (passes, pattern) in cases {
        let mut w = PackedHeader::new();
        for &b in *pattern {
            w.bit(b);
        }
        let bytes = w.finish();
        let mut bio = BitReader::new(&bytes);
        assert_eq!(read_num_passes(&mut bio), *passes, "passes={passes}");
    }
}

#[test]
fn packet_one_included_block() {
    let mut w = PackedHeader::new();
    w.bit(1);
    w.bit(1);
    w.bits(0b001, 3);
    w.bit(0);
    w.bit(0);
    w.bits(5, 3);
    let mut data = w.finish();
    let header_len = data.len();
    let body = [0xDE, 0xAD, 0xBE, 0xEF, 0x42];
    data.extend_from_slice(&body);

    let bands = vec![single_block_band(BandKind::Ll, 8, 8)];
    let (subbands, next) = parse_one_packet(&data, &bands).unwrap();

    let block = &subbands[0].blocks[0];
    assert_eq!(block.num_passes, 1);
    assert_eq!(block.zero_bit_planes, 2);
    assert_eq!(all_bytes(block), body);
    assert_eq!(next, header_len + body.len());
}

#[test]
fn packet_zero_bitplane_count_can_exceed_the_magnitude_planes() {
    let mut w = PackedHeader::new();
    w.bit(1);
    w.bit(1);
    for _ in 0..292 {
        w.bit(0);
    }
    w.bit(1);
    w.bit(0);
    w.bit(0);
    w.bits(5, 3);
    let mut data = w.finish();
    let body = [0xDE, 0xAD, 0xBE, 0xEF, 0x42];
    data.extend_from_slice(&body);

    let bands = vec![single_block_band(BandKind::Ll, 8, 8)];
    let (subbands, _next) = parse_one_packet(&data, &bands).unwrap();
    assert_eq!(subbands[0].blocks[0].zero_bit_planes, 292);
}

#[test]
fn packet_zero_bitplane_run_past_the_limit_is_rejected() {
    let mut w = PackedHeader::new();
    w.bit(1);
    w.bit(1);
    for _ in 0..400 {
        w.bit(0);
    }
    let data = w.finish();

    let bands = vec![single_block_band(BandKind::Ll, 8, 8)];
    let err = parse_one_packet(&data, &bands).expect_err("should reject");
    assert!(matches!(err, Error::Codestream(_)), "{err:?}");
}

#[test]
fn packet_length_field_width_tracks_passes() {
    let mut w = PackedHeader::new();
    w.bit(1);
    w.bit(1);
    w.bit(1);
    w.bits(0b1110, 4);
    w.bit(0);
    w.bits(20, 5);
    let mut data = w.finish();
    let body = vec![7u8; 20];
    data.extend_from_slice(&body);

    let bands = vec![single_block_band(BandKind::Hh, 16, 16)];
    let (subbands, _next) = parse_one_packet(&data, &bands).unwrap();
    let block = &subbands[0].blocks[0];
    assert_eq!(block.num_passes, 5);
    assert_eq!(block.zero_bit_planes, 0);
    assert_eq!(all_bytes(block).len(), 20);
}

#[test]
fn packet_lblock_increment() {
    let mut w = PackedHeader::new();
    w.bit(1);
    w.bit(1);
    w.bit(1);
    w.bit(0);
    w.bits(0b110, 3);
    w.bits(9, 5);
    let mut data = w.finish();
    let body = vec![1u8; 9];
    data.extend_from_slice(&body);

    let bands = vec![single_block_band(BandKind::Ll, 8, 8)];
    let (subbands, _next) = parse_one_packet(&data, &bands).unwrap();
    assert_eq!(all_bytes(&subbands[0].blocks[0]).len(), 9);
}

#[test]
fn packet_empty() {
    let mut w = PackedHeader::new();
    w.bit(0);
    let data = w.finish();
    assert_eq!(data.len(), 1);

    let bands = vec![single_block_band(BandKind::Ll, 8, 8)];
    let (subbands, next) = parse_one_packet(&data, &bands).unwrap();
    let block = &subbands[0].blocks[0];
    assert_eq!(block.num_passes, 0);
    assert!(block.segments.is_empty());
    assert_eq!(next, 1);
}

#[test]
fn packet_block_not_included() {
    let mut w = PackedHeader::new();
    w.bit(1);
    w.bit(0);
    let data = w.finish();

    let bands = vec![single_block_band(BandKind::Ll, 8, 8)];
    let (subbands, next) = parse_one_packet(&data, &bands).unwrap();
    let block = &subbands[0].blocks[0];
    assert_eq!(block.num_passes, 0);
    assert!(block.segments.is_empty());
    assert_eq!(next, data.len());
}

#[test]
fn packet_two_blocks_partial_inclusion() {
    let mut w = PackedHeader::new();
    w.bit(1);
    w.bit(1);
    w.bit(0);
    w.bit(1);
    w.bit(1);
    w.bit(1);
    w.bit(0);
    w.bit(0);
    w.bits(2, 3);
    let mut data = w.finish();
    let body = [0xAA, 0xBB];
    data.extend_from_slice(&body);

    let band = BandGeom {
        kind: BandKind::Ll,
        origin: (0, 0),
        width: 16,
        height: 8,
        block_cols: 2,
        block_rows: 1,
        blocks: vec![(0, 0, 8, 8), (8, 0, 8, 8)],
        precincts: one_precinct(2, 1),
    };
    let (subbands, _next) = parse_one_packet(&data, &vec![band]).unwrap();
    let blocks = &subbands[0].blocks;
    assert_eq!(blocks[0].num_passes, 0);
    assert!(all_bytes(&blocks[0]).is_empty());
    assert_eq!(blocks[1].num_passes, 1);
    assert_eq!(all_bytes(&blocks[1]), &body);
}

#[test]
fn malformed_tile_data_never_panics() {
    let cases: [Vec<u8>; 5] = [
        Vec::new(),
        vec![0xFF; 64],
        vec![0x00; 64],
        (0..=255u8).cycle().take(300).collect(),
        vec![0x80, 0x01, 0xFF, 0xFE, 0x00, 0x7F],
    ];
    let h = header(32, 32, 3, 6);
    for data in &cases {
        let t = tile(data);
        let _ = decode_packets(&h, &t);
    }
}

#[test]
fn block_count_guard_rejects_metadata_bomb() {
    let h = header(4096, 4096, 1, 2);
    let t = tile(&[]);
    let err = decode_packets(&h, &t).expect_err("guard fires before any packet parse");
    assert!(matches!(err, Error::Unsupported(_)), "{err:?}");
}

#[test]
fn resolution_geoms_honour_each_components_sub_sampling() {
    let mut h = header(64, 64, 1, 6);
    h.siz.components = vec![
        SizComponent {
            bit_depth: 8,
            signed: false,
            x_sampling: 1,
            y_sampling: 1,
        },
        SizComponent {
            bit_depth: 8,
            signed: false,
            x_sampling: 2,
            y_sampling: 1,
        },
        SizComponent {
            bit_depth: 8,
            signed: false,
            x_sampling: 1,
            y_sampling: 2,
        },
        SizComponent {
            bit_depth: 8,
            signed: false,
            x_sampling: 2,
            y_sampling: 2,
        },
    ];

    let h = MainHeader::new(h.siz, h.cod, h.qcd);

    let expected_ll = [(32, 32), (16, 32), (32, 16), (16, 16)];
    for (component, (want_width, want_height)) in expected_ll.into_iter().enumerate() {
        let geoms = geoms_of(&h, 0, component).unwrap();
        let ll = &geoms[0].bands[0];
        assert_eq!(ll.kind, BandKind::Ll);
        assert_eq!(
            (ll.width, ll.height),
            (want_width, want_height),
            "component {component} LL band",
        );
    }

    assert!(geoms_of(&h, 0, 4).is_err());
}

fn packets(parts: &[(Vec<u8>, Vec<u8>)]) -> Vec<u8> {
    let mut data = Vec::new();
    for (header, body) in parts {
        data.extend_from_slice(header);
        data.extend_from_slice(body);
    }
    data
}

#[test]
fn layers_accumulate_passes_and_segments() {
    let mut l0 = PackedHeader::new();
    l0.bit(1);
    l0.bit(1);
    l0.bits(0b001, 3);
    l0.bit(0);
    l0.bit(0);
    l0.bits(3, 3);

    let mut l1 = PackedHeader::new();
    l1.bit(1);
    l1.bit(1);
    l1.bit(0);
    l1.bit(0);
    l1.bits(2, 3);

    let data = packets(&[(l0.finish(), vec![1, 2, 3]), (l1.finish(), vec![4, 5])]);
    let bands = vec![single_block_band(BandKind::Ll, 8, 8)];
    let (subbands, next) = parse_layers(&data, &bands, 2).unwrap();

    let block = &subbands[0].blocks[0];
    assert_eq!(block.num_passes, 2, "passes accumulate across layers");
    assert_eq!(block.zero_bit_planes, 2, "read once, on first inclusion");
    assert_eq!(only_segment(block).chunks.len(), 2, "one chunk per layer");
    assert_eq!(all_bytes(block), vec![1, 2, 3, 4, 5]);
    assert_eq!(next, data.len());
}

#[test]
fn a_block_first_included_in_a_later_layer() {
    let mut l0 = PackedHeader::new();
    l0.bit(1);
    l0.bit(0);

    let mut l1 = PackedHeader::new();
    l1.bit(1);
    l1.bit(1);
    l1.bit(1);
    l1.bit(0);
    l1.bit(0);
    l1.bits(2, 3);

    let data = packets(&[(l0.finish(), vec![]), (l1.finish(), vec![0xAA, 0xBB])]);
    let bands = vec![single_block_band(BandKind::Hl, 8, 8)];
    let (subbands, next) = parse_layers(&data, &bands, 2).unwrap();

    let block = &subbands[0].blocks[0];
    assert_eq!(block.num_passes, 1);
    assert_eq!(block.zero_bit_planes, 0);
    assert_eq!(all_bytes(block), vec![0xAA, 0xBB]);
    assert_eq!(next, data.len());
}

#[test]
fn an_included_block_may_skip_a_layer() {
    let mut l0 = PackedHeader::new();
    l0.bit(1);
    l0.bit(1);
    l0.bit(1);
    l0.bit(0);
    l0.bit(0);
    l0.bits(2, 3);

    let mut l1 = PackedHeader::new();
    l1.bit(1);
    l1.bit(0);

    let data = packets(&[(l0.finish(), vec![9, 9]), (l1.finish(), vec![])]);
    let bands = vec![single_block_band(BandKind::Lh, 8, 8)];
    let (subbands, next) = parse_layers(&data, &bands, 2).unwrap();

    let block = &subbands[0].blocks[0];
    assert_eq!(block.num_passes, 1);
    assert_eq!(all_bytes(block), vec![9, 9]);
    assert_eq!(next, data.len());
}

#[test]
fn lblock_persists_across_layers() {
    let mut l0 = PackedHeader::new();
    l0.bit(1);
    l0.bit(1);
    l0.bit(1);
    l0.bit(0);
    l0.bit(1);
    l0.bit(0);
    l0.bits(2, 4);

    let mut l1 = PackedHeader::new();
    l1.bit(1);
    l1.bit(1);
    l1.bit(0);
    l1.bit(0);
    l1.bits(3, 4);

    let data = packets(&[(l0.finish(), vec![1, 2]), (l1.finish(), vec![3, 4, 5])]);
    let bands = vec![single_block_band(BandKind::Hh, 8, 8)];
    let (subbands, next) = parse_layers(&data, &bands, 2).unwrap();

    let block = &subbands[0].blocks[0];
    assert_eq!(block.num_passes, 2);
    assert_eq!(all_bytes(block), vec![1, 2, 3, 4, 5]);
    assert_eq!(next, data.len());
}

#[test]
fn length_field_width_uses_this_layers_passes_not_the_total() {
    let mut l0 = PackedHeader::new();
    l0.bit(1);
    l0.bit(1);
    l0.bit(1);
    l0.bits(0b1100, 4);
    l0.bit(0);
    l0.bits(2, 4);

    let mut l1 = PackedHeader::new();
    l1.bit(1);
    l1.bit(1);
    l1.bits(0b1100, 4);
    l1.bit(0);
    l1.bits(3, 4);

    let data = packets(&[(l0.finish(), vec![1, 2]), (l1.finish(), vec![3, 4, 5])]);
    let bands = vec![single_block_band(BandKind::Ll, 8, 8)];
    let (subbands, next) = parse_layers(&data, &bands, 2).unwrap();

    let block = &subbands[0].blocks[0];
    assert_eq!(block.num_passes, 6, "the total still accumulates");
    assert_eq!(all_bytes(block), vec![1, 2, 3, 4, 5]);
    assert_eq!(next, data.len());
}

#[test]
fn an_empty_packet_leaves_the_tag_trees_alone() {
    let mut l0 = PackedHeader::new();
    l0.bit(0);

    let mut l1 = PackedHeader::new();
    l1.bit(1);
    l1.bit(1);
    l1.bit(1);
    l1.bit(0);
    l1.bit(0);
    l1.bits(1, 3);

    let data = packets(&[(l0.finish(), vec![]), (l1.finish(), vec![0x7F])]);
    let bands = vec![single_block_band(BandKind::Ll, 8, 8)];
    let (subbands, next) = parse_layers(&data, &bands, 2).unwrap();

    let block = &subbands[0].blocks[0];
    assert_eq!(block.num_passes, 1);
    assert_eq!(all_bytes(block), vec![0x7F]);
    assert_eq!(next, data.len());
}

#[test]
fn a_layer_may_contribute_passes_without_bytes() {
    let mut l0 = PackedHeader::new();
    l0.bit(1);
    l0.bit(1);
    l0.bit(1);
    l0.bit(0);
    l0.bit(0);
    l0.bits(0, 3);

    let mut l1 = PackedHeader::new();
    l1.bit(1);
    l1.bit(1);
    l1.bit(0);
    l1.bit(0);
    l1.bits(2, 3);

    let data = packets(&[(l0.finish(), vec![]), (l1.finish(), vec![0xC0, 0xDE])]);
    let bands = vec![single_block_band(BandKind::Ll, 8, 8)];
    let (subbands, next) = parse_layers(&data, &bands, 2).unwrap();

    let block = &subbands[0].blocks[0];
    assert_eq!(block.num_passes, 2, "both layers' passes count");
    assert_eq!(all_bytes(block), vec![0xC0, 0xDE]);
    assert_eq!(next, data.len());
}

#[test]
fn a_block_with_passes_and_no_bytes_at_all_is_codestream() {
    let mut l0 = PackedHeader::new();
    l0.bit(1);
    l0.bit(1);
    l0.bit(1);
    l0.bit(0);
    l0.bit(0);
    l0.bits(0, 3);

    let mut l1 = PackedHeader::new();
    l1.bit(1);
    l1.bit(1);
    l1.bit(0);
    l1.bit(0);
    l1.bits(0, 3);

    let data = packets(&[(l0.finish(), vec![]), (l1.finish(), vec![])]);
    let bands = vec![single_block_band(BandKind::Ll, 8, 8)];
    assert!(matches!(
        parse_layers(&data, &bands, 2),
        Err(Error::Codestream(_))
    ));
}

#[test]
fn a_tile_part_shorter_than_its_layers_is_codestream() {
    let mut l0 = PackedHeader::new();
    l0.bit(1);
    l0.bit(1);
    l0.bit(1);
    l0.bit(0);
    l0.bit(0);
    l0.bits(1, 3);

    let data = packets(&[(l0.finish(), vec![0x01])]);
    let bands = vec![single_block_band(BandKind::Ll, 8, 8)];
    assert!(matches!(
        parse_layers(&data, &bands, 2),
        Err(Error::Codestream(_))
    ));
}

const ORDERS: [Progression; 5] = [
    Progression::Lrcp,
    Progression::Rlcp,
    Progression::Rpcl,
    Progression::Pcrl,
    Progression::Cprl,
];

struct Layout {
    size: (u32, u32),
    sampling: Vec<(u8, u8)>,
    levels: u8,
    precincts: Vec<(u8, u8)>,
}

impl Layout {
    fn plain(size: (u32, u32), levels: u8) -> Self {
        Layout {
            size,
            sampling: vec![(1, 1)],
            levels,
            precincts: Vec::new(),
        }
    }

    fn components(mut self, count: usize) -> Self {
        self.sampling = vec![(1, 1); count];
        self
    }

    fn precincts(mut self, ppx: u8, ppy: u8) -> Self {
        self.precincts = vec![(ppx, ppy); usize::from(self.levels) + 1];
        self
    }

    fn header(&self) -> MainHeader {
        MainHeader::new(
            Siz {
                x_size: self.size.0,
                y_size: self.size.1,
                x_offset: 0,
                y_offset: 0,
                tile_width: self.size.0,
                tile_height: self.size.1,
                tile_x_offset: 0,
                tile_y_offset: 0,
                components: self
                    .sampling
                    .iter()
                    .map(|&(x_sampling, y_sampling)| SizComponent {
                        bit_depth: 8,
                        signed: false,
                        x_sampling,
                        y_sampling,
                    })
                    .collect(),
            },
            Cod {
                progression: Progression::Lrcp,
                layers: 1,
                decomposition_levels: self.levels,
                code_block_width: 4,
                code_block_height: 4,
                code_block_style: 0,
                use_sop: false,
                use_eph: false,
                multiple_component_transform: false,
                transform: Transform::Reversible53,
                precinct_sizes: self.precincts.clone(),
            },
            Qcd {
                style: QuantStyle::Unquantized,
                guard_bits: 2,
                steps: vec![(8, 0); 3 * usize::from(self.levels) + 1],
            },
        )
    }
}

fn order_of(
    layout: &Layout,
    progression: Progression,
    layers: u32,
) -> Vec<(u32, usize, usize, usize)> {
    let mut header = layout.header();
    header.cod.progression = progression;
    header.cod.layers = layers as u16;
    let geoms: Vec<Vec<ResolutionGeom>> = (0..header.siz.components.len())
        .map(|c| geoms_of(&header, 0, c).expect("geometry"))
        .collect();
    let walk = PacketWalk {
        siz: &header.siz,
        tile: header.siz.tile_rect(0).expect("tile 0"),
        geoms: &geoms,
    };
    packet_order(&header, &walk)
}

#[test]
fn each_progression_nests_its_axes_in_the_right_order() {
    let layout = Layout::plain((32, 32), 1).components(2);
    let first_four = |p| {
        order_of(&layout, p, 2)[..4]
            .iter()
            .map(|&(l, r, c, _)| (l, r, c))
            .collect::<Vec<_>>()
    };

    assert_eq!(
        first_four(Progression::Lrcp),
        [(0, 0, 0), (0, 0, 1), (0, 1, 0), (0, 1, 1)]
    );
    assert_eq!(
        first_four(Progression::Rlcp),
        [(0, 0, 0), (0, 0, 1), (1, 0, 0), (1, 0, 1)]
    );
    assert_eq!(
        first_four(Progression::Rpcl),
        [(0, 0, 0), (1, 0, 0), (0, 0, 1), (1, 0, 1)]
    );
    assert_eq!(
        first_four(Progression::Pcrl),
        [(0, 0, 0), (1, 0, 0), (0, 1, 0), (1, 1, 0)]
    );
}

#[test]
fn every_order_visits_the_same_packets() {
    let layout = Layout {
        size: (64, 48),
        sampling: vec![(1, 1), (2, 1), (2, 2)],
        levels: 2,
        precincts: vec![(3, 3), (4, 4), (4, 5)],
    };
    let expected: BTreeSet<_> = order_of(&layout, Progression::Lrcp, 3)
        .into_iter()
        .collect();
    assert!(expected.len() > 60, "the layout must be worth walking");

    for progression in ORDERS {
        let seen = order_of(&layout, progression, 3);
        assert_eq!(
            seen.len(),
            expected.len(),
            "{progression:?} visits {} packets, LRCP visits {}",
            seen.len(),
            expected.len(),
        );
        assert_eq!(
            seen.iter().copied().collect::<BTreeSet<_>>(),
            expected,
            "{progression:?} visits a different set of packets than LRCP",
        );
    }
}

#[test]
fn pcrl_and_cprl_coincide_with_one_precinct() {
    let layout = Layout::plain((32, 32), 2).components(3);
    assert_eq!(
        order_of(&layout, Progression::Pcrl, 3),
        order_of(&layout, Progression::Cprl, 3),
    );
}

#[test]
fn pcrl_and_cprl_diverge_once_precincts_exist() {
    let layout = Layout::plain((64, 64), 2).components(3).precincts(4, 4);
    let pcrl = order_of(&layout, Progression::Pcrl, 1);
    let cprl = order_of(&layout, Progression::Cprl, 1);

    assert_eq!(pcrl.len(), cprl.len());
    assert_ne!(pcrl, cprl, "the two orders must not coincide");
    assert!(cprl[..cprl.len() / 3].iter().all(|&(_, _, c, _)| c == 0));
    assert!(pcrl[..4].iter().any(|&(_, _, c, _)| c != 0));
}

#[test]
fn the_orders_coincide_when_only_resolution_varies() {
    let layout = Layout::plain((32, 32), 3);
    let first = order_of(&layout, ORDERS[0], 1);
    for progression in ORDERS {
        assert_eq!(order_of(&layout, progression, 1), first, "{progression:?}");
    }
    let layered = Layout::plain((32, 32), 1);
    assert_ne!(
        order_of(&layered, Progression::Lrcp, 2),
        order_of(&layered, Progression::Rlcp, 2),
    );
}

const RESTART: u8 = 0x04;

const SOP: Delimiters = Delimiters {
    sop: true,
    eph: false,
};
const EPH: Delimiters = Delimiters {
    sop: false,
    eph: true,
};

fn sop_marker(nsop: u16) -> Vec<u8> {
    let mut v = vec![0xFF, 0x91, 0x00, 0x04];
    v.extend_from_slice(&nsop.to_be_bytes());
    v
}

fn one_block_header() -> Vec<u8> {
    let mut w = PackedHeader::new();
    w.bit(1);
    w.bit(1);
    w.bit(1);
    w.bit(0);
    w.bit(0);
    w.bits(2, 3);
    w.finish()
}

#[test]
fn sop_is_consumed_and_its_sequence_number_checked() {
    let mut data = sop_marker(0);
    data.extend_from_slice(&one_block_header());
    data.extend_from_slice(&[0xAB, 0xCD]);

    let bands = vec![single_block_band(BandKind::Ll, 8, 8)];
    let (subbands, next) = parse_layers_with(&data, &bands, 1, SOP).unwrap();
    assert_eq!(all_bytes(&subbands[0].blocks[0]), vec![0xAB, 0xCD]);
    assert_eq!(next, data.len());
}

#[test]
fn a_missing_sop_is_tolerated() {
    let mut data = one_block_header();
    data.extend_from_slice(&[1, 2]);

    let bands = vec![single_block_band(BandKind::Ll, 8, 8)];
    let (subbands, next) = parse_layers_with(&data, &bands, 1, SOP).unwrap();
    assert_eq!(all_bytes(&subbands[0].blocks[0]), vec![1, 2]);
    assert_eq!(next, data.len());
}

#[test]
fn a_wrong_sop_sequence_number_is_codestream() {
    let mut data = sop_marker(7);
    data.extend_from_slice(&one_block_header());
    data.extend_from_slice(&[1, 2]);

    let bands = vec![single_block_band(BandKind::Ll, 8, 8)];
    let e = parse_layers_with(&data, &bands, 1, SOP).unwrap_err();
    assert!(
        matches!(&e, Error::Codestream(m) if m.contains("sequence number")),
        "got {e:?}"
    );
}

#[test]
fn a_malformed_sop_segment_is_codestream() {
    let bands = vec![single_block_band(BandKind::Ll, 8, 8)];

    let mut data = vec![0xFF, 0x91, 0x00, 0x06, 0x00, 0x00];
    data.extend_from_slice(&one_block_header());
    data.extend_from_slice(&[1, 2]);
    let e = parse_layers_with(&data, &bands, 1, SOP).unwrap_err();
    assert!(
        matches!(&e, Error::Codestream(m) if m.contains("Lsop")),
        "got {e:?}"
    );

    let data = vec![0xFF, 0x91, 0x00, 0x04, 0x00];
    let e = parse_layers_with(&data, &bands, 1, SOP).unwrap_err();
    assert!(matches!(e, Error::Codestream(_)), "got {e:?}");
}

#[test]
fn the_sop_sequence_number_wraps_at_65536() {
    let mut data = sop_marker(0);
    data.extend_from_slice(&one_block_header());
    data.extend_from_slice(&[1, 2]);

    let bands = vec![single_block_band(BandKind::Ll, 8, 8)];
    let mut states: Vec<BandState<'_>> = bands.iter().map(BandState::new).collect();
    let mut streams = streams_over(&data);
    parse_packet(&mut streams, 0, 65536, SOP, 0, &bands, 0, &mut states).expect("wraps to zero");
}

#[test]
fn eph_is_consumed_after_the_packet_header() {
    let mut data = one_block_header();
    data.extend_from_slice(&[0xFF, 0x92]);
    data.extend_from_slice(&[3, 4]);

    let bands = vec![single_block_band(BandKind::Ll, 8, 8)];
    let (subbands, next) = parse_layers_with(&data, &bands, 1, EPH).unwrap();
    assert_eq!(all_bytes(&subbands[0].blocks[0]), vec![3, 4]);
    assert_eq!(next, data.len());
}

#[test]
fn a_missing_eph_is_codestream() {
    let mut data = one_block_header();
    data.extend_from_slice(&[1, 2]);

    let bands = vec![single_block_band(BandKind::Ll, 8, 8)];
    let e = parse_layers_with(&data, &bands, 1, EPH).unwrap_err();
    assert!(
        matches!(&e, Error::Codestream(m) if m.contains("EPH")),
        "got {e:?}"
    );
}

#[test]
fn an_empty_packet_still_carries_its_eph() {
    let mut w = PackedHeader::new();
    w.bit(0);
    let mut data = w.finish();
    data.extend_from_slice(&[0xFF, 0x92]);

    let bands = vec![single_block_band(BandKind::Ll, 8, 8)];
    let (subbands, next) = parse_layers_with(&data, &bands, 1, EPH).unwrap();
    assert_eq!(subbands[0].blocks[0].num_passes, 0);
    assert_eq!(next, data.len());
}

#[test]
fn restart_splits_a_contribution_into_one_segment_per_pass() {
    let mut w = PackedHeader::new();
    w.bit(1);
    w.bit(1);
    w.bit(1);
    w.bits(0b1100, 4);
    w.bit(0);
    w.bits(1, 3);
    w.bits(2, 3);
    w.bits(3, 3);
    let mut data = w.finish();
    data.extend_from_slice(&[0xA1]);
    data.extend_from_slice(&[0xB1, 0xB2]);
    data.extend_from_slice(&[0xC1, 0xC2, 0xC3]);

    let bands = vec![single_block_band(BandKind::Ll, 8, 8)];
    let (subbands, next) = parse_layers_styled(
        &data,
        &bands,
        1,
        Delimiters {
            sop: false,
            eph: false,
        },
        RESTART,
    )
    .unwrap();

    let block = &subbands[0].blocks[0];
    assert_eq!(block.num_passes, 3);
    assert_eq!(block.segments.len(), 3, "one segment per coding pass");
    for segment in &block.segments {
        assert_eq!(segment.passes, 1);
    }
    assert_eq!(block.segments[0].bytes(), vec![0xA1]);
    assert_eq!(block.segments[1].bytes(), vec![0xB1, 0xB2]);
    assert_eq!(block.segments[2].bytes(), vec![0xC1, 0xC2, 0xC3]);
    assert_eq!(next, data.len());
}

#[test]
fn the_default_style_keeps_one_segment_for_every_pass() {
    let mut w = PackedHeader::new();
    w.bit(1);
    w.bit(1);
    w.bit(1);
    w.bits(0b1100, 4);
    w.bit(0);
    w.bits(6, 4);
    let mut data = w.finish();
    data.extend_from_slice(&[1, 2, 3, 4, 5, 6]);

    let bands = vec![single_block_band(BandKind::Ll, 8, 8)];
    let (subbands, next) = parse_layers(&data, &bands, 1).unwrap();

    let block = &subbands[0].blocks[0];
    assert_eq!(block.num_passes, 3);
    assert_eq!(block.segments.len(), 1, "one continuous codeword");
    assert_eq!(block.segments[0].passes, 3);
    assert_eq!(next, data.len());
}

#[test]
fn restart_segments_fill_one_pass_at_a_time_across_layers() {
    let mut l0 = PackedHeader::new();
    l0.bit(1);
    l0.bit(1);
    l0.bit(1);
    l0.bit(0);
    l0.bit(0);
    l0.bits(1, 3);

    let mut l1 = PackedHeader::new();
    l1.bit(1);
    l1.bit(1);
    l1.bit(0);
    l1.bit(0);
    l1.bits(2, 3);

    let data = packets(&[(l0.finish(), vec![7]), (l1.finish(), vec![8, 9])]);
    let bands = vec![single_block_band(BandKind::Ll, 8, 8)];
    let (subbands, next) = parse_layers_styled(
        &data,
        &bands,
        2,
        Delimiters {
            sop: false,
            eph: false,
        },
        RESTART,
    )
    .unwrap();

    let block = &subbands[0].blocks[0];
    assert_eq!(block.num_passes, 2);
    assert_eq!(
        block.segments.len(),
        2,
        "a full segment does not take more passes"
    );
    assert_eq!(block.segments[0].bytes(), vec![7]);
    assert_eq!(block.segments[1].bytes(), vec![8, 9]);
    assert_eq!(next, data.len());
}

#[test]
fn packet_markers_at_fault_say_what_was_read_and_expected() {
    let bands = vec![single_block_band(BandKind::Ll, 8, 8)];
    let packet = |prefix: &[u8]| {
        let mut data = prefix.to_vec();
        data.extend_from_slice(&one_block_header());
        data.extend_from_slice(&[1, 2]);
        data
    };
    assert_eq!(
        parse_layers_with(&packet(&sop_marker(7)), &bands, 1, SOP).unwrap_err(),
        Error::Codestream("SOP sequence number 7 for packet 0, expected 0".into())
    );
    assert_eq!(
        parse_layers_with(&packet(&[0xFF, 0x91, 0, 6, 0, 0]), &bands, 1, SOP).unwrap_err(),
        Error::Codestream("SOP declares Lsop 6, expected 4".into())
    );
    assert_eq!(
        parse_layers_with(&[0xFF, 0x91, 0], &bands, 1, SOP).unwrap_err(),
        Error::Codestream("truncated SOP marker segment".into())
    );
}
