//! The library's laws on concrete values, and the texts of its errors and markers.

use rust_j2k::codestream::markers::{
    code_block_style, marker, Cod, PocVolume, Progression, Qcd, QuantStyle, Siz, SizComponent,
    Transform,
};
use rust_j2k::codestream::segments::decode_cod;
use rust_j2k::codestream::{parse, parse_main_header, Cursor, MainHeader};
use rust_j2k::fuzz::scaffold::wrap;
use rust_j2k::text::{decimal, hex};
use rust_j2k::tier1::block::{BlockState, Orientation};
use rust_j2k::tier2::bio::BitReader;
use rust_j2k::tier2::geometry::{resolution_geoms, ResolutionGeom};
use rust_j2k::tier2::orders::packet_order;
use rust_j2k::tier2::progression::PacketWalk;
use rust_j2k::tier2::tagtree::TagTree;
use rust_j2k::{decode, Error};
use std::collections::BTreeSet;

const ORDERS: [Progression; 5] = [
    Progression::Lrcp,
    Progression::Rlcp,
    Progression::Rpcl,
    Progression::Pcrl,
    Progression::Cprl,
];

fn header(area: [u32; 4], tile: [u32; 4], sampling: &[(u8, u8)], precincts: &[(u8, u8)]) -> MainHeader {
    MainHeader::new(
        Siz {
            x_size: area[2],
            y_size: area[3],
            x_offset: area[0],
            y_offset: area[1],
            tile_width: tile[2],
            tile_height: tile[3],
            tile_x_offset: tile[0],
            tile_y_offset: tile[1],
            components: sampling
                .iter()
                .map(|&(x_sampling, y_sampling)| SizComponent {
                    bit_depth: 8,
                    signed: false,
                    x_sampling,
                    y_sampling,
                })
                .collect(),
        },
        Cod {
            progression: Progression::Lrcp,
            layers: 2,
            decomposition_levels: 2,
            code_block_width: 1,
            code_block_height: 0,
            code_block_style: 0,
            use_sop: false,
            use_eph: false,
            multiple_component_transform: false,
            transform: Transform::Reversible53,
            precinct_sizes: precincts.to_vec(),
        },
        Qcd {
            style: QuantStyle::Unquantized,
            guard_bits: 2,
            steps: vec![(8, 0); 7],
        },
    )
}

fn geoms(h: &MainHeader, tile: u32) -> Vec<Vec<ResolutionGeom>> {
    (0..h.siz.components.len())
        .map(|c| {
            let (mut p, mut b) = (usize::MAX, usize::MAX);
            resolution_geoms(h, tile, c, &mut p, &mut b).unwrap()
        })
        .collect()
}

fn order(h: &MainHeader, tile: u32) -> Vec<(u32, usize, usize, usize)> {
    let g = geoms(h, tile);
    let walk = PacketWalk {
        siz: &h.siz,
        tile: h.siz.tile_rect(tile).unwrap(),
        geoms: &g,
    };
    packet_order(h, &walk)
}

#[test]
fn tiles_partition_every_component() {
    let h = header([5, 3, 41, 38], [2, 1, 11, 9], &[(1, 1), (2, 3), (3, 2)], &[]);
    for c in 0..3 {
        let whole = h.siz.component_rect(c).unwrap();
        for reduction in 0..4u8 {
            let outer = whole.reduced(reduction);
            for y in outer.y0..outer.y1 {
                for x in outer.x0..outer.x1 {
                    let holders = (0..h.siz.num_tiles())
                        .filter(|&t| {
                            let r = h.siz.tile_component_rect(t, c).unwrap().reduced(reduction);
                            r.x0 <= x && x < r.x1 && r.y0 <= y && y < r.y1
                        })
                        .count();
                    assert_eq!(holders, 1, "component {c}, ({x}, {y}) at {reduction}");
                }
            }
        }
    }
}

#[test]
fn blocks_tile_their_bands_and_precincts_deal_them_out() {
    let h = header([5, 3, 75, 69], [0, 0, 75, 69], &[(1, 1), (2, 1)], &[(2, 3), (3, 3), (4, 2)]);
    for g in geoms(&h, 0).iter().flatten() {
        for band in &g.bands {
            let mut hits = vec![0; band.width * band.height];
            for &(x, y, w, h) in &band.blocks {
                for by in y..y + h {
                    for bx in x..x + w {
                        hits[by * band.width + bx] += 1;
                    }
                }
            }
            assert!(hits.iter().all(|&n| n == 1));
            let mut dealt: Vec<usize> =
                band.precincts.iter().flat_map(|p| p.blocks.iter().copied()).collect();
            dealt.sort_unstable();
            assert_eq!(dealt, (0..band.blocks.len()).collect::<Vec<_>>());
        }
    }
}

#[test]
fn every_order_visits_each_packet_once() {
    let mut h = header([3, 5, 70, 61], [3, 5, 37, 61], &[(1, 1), (2, 4)], &[(3, 2), (4, 3), (4, 4)]);
    for tile in 0..h.siz.num_tiles() {
        let all: usize = geoms(&h, tile)
            .iter()
            .flatten()
            .map(|g| 2 * g.precincts_wide * g.precincts_high)
            .sum();
        for progression in ORDERS {
            h.cod.progression = progression;
            let seen = order(&h, tile);
            let distinct: BTreeSet<_> = seen.iter().copied().collect();
            assert_eq!(seen.len(), all, "{progression:?}");
            assert_eq!(distinct.len(), all, "{progression:?}");
        }
    }
}

#[test]
fn spans_that_do_not_nest_can_be_missed_by_a_joint_sweep() {
    let mut h = header([0, 0, 64, 64], [0, 0, 64, 64], &[(2, 2), (3, 3)], &[(3, 3), (3, 3), (3, 3)]);
    let counts: Vec<usize> = ORDERS
        .iter()
        .map(|&p| {
            h.cod.progression = p;
            order(&h, 0).len()
        })
        .collect();
    assert_eq!(counts[0], counts[1]);
    assert_eq!(counts[0], counts[4]);
    assert!(counts[2] < counts[0]);
    assert!(counts[3] < counts[0]);
}

#[test]
fn volumes_emit_each_packet_once_where_it_is_first_reached() {
    let mut h = header([0, 0, 32, 32], [0, 0, 32, 32], &[(1, 1), (1, 1)], &[]);
    let volume = |res: (u8, u8), comp: (u16, u16), layers: u16, progression: Progression| PocVolume {
        res_start: res.0,
        comp_start: comp.0,
        layer_end: layers,
        res_end: res.1,
        comp_end: comp.1,
        progression,
    };
    h.poc = vec![
        volume((0, 1), (0, 2), 1, Progression::Lrcp),
        volume((0, 3), (0, 2), 2, Progression::Rlcp),
    ];
    let seen = order(&h, 0);
    assert_eq!(&seen[..2], &[(0, 0, 0, 0), (0, 0, 1, 0)]);
    assert_eq!(&seen[2..5], &[(1, 0, 0, 0), (1, 0, 1, 0), (0, 1, 0, 0)]);
    let distinct: BTreeSet<_> = seen.iter().copied().collect();
    assert_eq!(distinct.len(), seen.len());
    assert_eq!(seen.len(), 12);
}

#[test]
fn a_tag_tree_read_again_takes_no_bits() {
    let data = [0b0110_1000, 0x00];
    let mut bits = BitReader::new(&data);
    let mut tree = TagTree::new(2, 1);
    assert_eq!(tree.read(1, 0, 2, &mut bits), Some(1));
    let mut other = BitReader::new(&data);
    assert_eq!(tree.read(1, 0, 2, &mut other), Some(1));
    assert_eq!(other.read(4), 0b0110);
    assert_eq!(tree.read(0, 0, 3, &mut bits), Some(2));
}

/// Bits packed most significant first, with a 0 in front of the byte after each `0xFF`.
fn stuffed(bits: &[u32]) -> Vec<u8> {
    let mut out: Vec<u8> = Vec::new();
    let mut at = 0;
    while at < bits.len() {
        let room = if out.last() == Some(&0xFF) { 7 } else { 8 };
        let byte = (0..room).fold(0u32, |v, i| 2 * v + bits.get(at + i).copied().unwrap_or(0));
        out.push(byte as u8);
        at += room;
    }
    if out.last() == Some(&0xFF) {
        out.push(0);
    }
    out
}

#[test]
fn packed_bits_are_read_back_and_the_body_follows() {
    for pattern in [0xFFFF_FFFFu32, 0xFF80_7FFF, 0x1234_5678, 0] {
        for len in 0..=32 {
            let bits: Vec<u32> = (0..len).map(|i| pattern >> (31 - i) & 1).collect();
            let header = stuffed(&bits);
            let mut data = header.clone();
            data.extend_from_slice(&[0xA5, 0x5A]);
            let mut reader = BitReader::new(&data);
            let read: Vec<u32> = (0..len).map(|_| reader.read_bit()).collect();
            assert_eq!(read, bits);
            reader.align();
            assert_eq!(reader.bytes_consumed(), header.len());
        }
    }
}

#[test]
fn errors_say_their_class() {
    assert_eq!(Error::Codestream("a".to_string()).text(), "codestream: a");
    assert_eq!(Error::Marker("b".to_string()).text(), "marker: b");
    assert_eq!(Error::Unsupported("c".to_string()).text(), "unsupported: c");
    assert_eq!(Error::Limit("d".to_string()).text(), "limit: d");
    assert_eq!(Error::InvalidOptions("e".to_string()).text(), "invalid options: e");
    assert_eq!(Error::Inconsistent("f".to_string()).text(), "inconsistent: f");
}

#[test]
fn numbers_are_spelled_out() {
    assert_eq!(decimal(0), "0");
    assert_eq!(decimal(18_446_744_073_709_551_615), "18446744073709551615");
    assert_eq!(hex(0xFF4F), "0xFF4F");
    assert_eq!(hex(0), "0x0000");
}

#[test]
fn markers_and_styles_are_named() {
    assert_eq!(marker::name(0xFF51), Some("SIZ"));
    assert_eq!(marker::name(0xFF00), None);
    assert_eq!(marker::describe(0xFF51), "SIZ (0xFF51)");
    assert_eq!(code_block_style::describe(0x02), "reset context probabilities");
    assert_eq!(code_block_style::flags().len(), 8);
}

#[test]
fn what_is_not_a_codestream_is_rejected() {
    assert!(matches!(decode(b"not a codestream"), Err(Error::Codestream(_))));
    assert!(matches!(decode(&[]), Err(Error::Codestream(_))));
    let jp2 = [0, 0, 0, 12, 0x6A, 0x50, 0x20, 0x20, 0x0D, 0x0A, 0x87, 0x0A, 0];
    assert!(matches!(decode(&jp2), Err(Error::Unsupported(_))));
}

#[test]
fn trailing_bytes_leave_every_scaffold_as_it_is() {
    let tails: [&[u8]; 3] = [&[0], &[0xAB, 0xCD, 0xFF, 0xD9], &[0xFF, 0x90, 0x00, 0x0A]];
    for variant in 0..=127u8 {
        let bytes = wrap(variant, &[3, 1, 4, 1, 5, 9, 2, 6]);
        for tail in tails {
            let mut longer = bytes.clone();
            longer.extend_from_slice(tail);
            assert_eq!(parse(&longer).unwrap(), parse(&bytes).unwrap(), "variant {variant}");
        }
    }
}

#[test]
fn a_reserved_marker_only_moves_the_first_tile_part() {
    for variant in [0u8, 5 << 3, 7 << 3 | 0x40] {
        let bytes = wrap(variant, &[3, 1, 4, 1, 5, 9, 2, 6]);
        let (header, sot, chunks) = parse_main_header(&bytes).unwrap();
        let mut at = 2;
        while at < sot {
            at += 2 + (bytes[at + 2] as usize * 256 + bytes[at + 3] as usize);
            for low in [0x30u8, 0x37, 0x3F] {
                let mut more = bytes[..at].to_vec();
                more.extend_from_slice(&[0xFF, low]);
                more.extend_from_slice(&bytes[at..]);
                let (h, s, c) = parse_main_header(&more).unwrap();
                assert_eq!((&h, s, &c), (&header, sot + 2, &chunks));
            }
        }
        assert_eq!(at, sot);
    }
}

#[test]
fn exchanging_rows_and_columns_trades_the_zero_coding_tables() {
    for pattern in 0..512u32 {
        let mut block = BlockState::new(3, 4);
        let mut turned = BlockState::new(4, 3);
        let mut around = false;
        for k in 0..9 {
            if pattern >> k & 1 == 1 {
                block.set_significant(k % 3, k / 3);
                turned.set_significant(k / 3, k % 3);
                around |= k != 4;
            }
        }
        let ll = block.zc_context(1, 1, Orientation::Ll);
        assert_eq!(ll, block.zc_context(1, 1, Orientation::Lh));
        assert_eq!(ll, turned.zc_context(1, 1, Orientation::Hl));
        assert_eq!(
            block.zc_context(1, 1, Orientation::Hl),
            turned.zc_context(1, 1, Orientation::Ll)
        );
        assert_eq!(
            block.zc_context(1, 1, Orientation::Hh),
            turned.zc_context(1, 1, Orientation::Hh)
        );
        assert_eq!(ll == 0, !around);
        assert!(ll <= 8);
    }
}

#[test]
fn an_undecoded_style_is_named_by_its_high_throughput_flags_alone() {
    let flags = code_block_style::flags();
    for style in 0x40..=0xFFu8 {
        let body = [0, 0, 0, 1, 0, 5, 4, 4, style, 1];
        let Err(Error::Unsupported(message)) = decode_cod(Cursor::new(&body)) else {
            panic!("style {style:#04X} is not decoded");
        };
        for (bit, name) in &flags {
            let named = *bit >= 0x40 && style & bit != 0;
            assert_eq!(message.contains(name), named, "style {style:#04X}: {message}");
        }
    }
    let body = [0, 0, 0, 1, 0, 5, 4, 4, 0xC9, 1];
    assert_eq!(
        decode_cod(Cursor::new(&body)).unwrap_err().text(),
        "unsupported: COD code-block style (HTJ2K high-throughput block coding, \
         HTJ2K mixed-mode block coding) is outside the decoded subset"
    );
}
