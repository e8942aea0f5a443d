//! Main-header and tile-part parsing, on headers assembled byte for byte from the
//! field layout.

use rust_j2k::codestream::markers::code_block_style::{
    flags, LAZY, PTERM, RESET, SEGSYM, TERMALL, VCAUSAL,
};
use rust_j2k::codestream::markers::{
    marker, Cod, Progression, Qcd, QuantStyle, Siz, SizComponent, TlmEntry, Transform,
    MAX_COMPONENTS,
};
use rust_j2k::codestream::{
    decode_ppm_chunks, decode_siz, parse, parse_main_header, validate_geometry, walk_main_header,
    Cursor, MainHeader, JP2_SIGNATURE, MAX_MAIN_HEADER_SEGMENTS,
};
use rust_j2k::Error;

fn be16(v: u16) -> [u8; 2] {
    v.to_be_bytes()
}

fn seg(m: u16, body: &[u8]) -> Vec<u8> {
    let mut s = Vec::new();
    s.extend_from_slice(&be16(m));
    s.extend_from_slice(&be16((body.len() + 2) as u16));
    s.extend_from_slice(body);
    s
}

fn siz_body(csiz: u16, comps: &[(u8, u8, u8)]) -> Vec<u8> {
    let mut b = Vec::new();
    b.extend_from_slice(&be16(0));
    b.extend_from_slice(&512u32.to_be_bytes());
    b.extend_from_slice(&256u32.to_be_bytes());
    b.extend_from_slice(&0u32.to_be_bytes());
    b.extend_from_slice(&0u32.to_be_bytes());
    b.extend_from_slice(&512u32.to_be_bytes());
    b.extend_from_slice(&256u32.to_be_bytes());
    b.extend_from_slice(&0u32.to_be_bytes());
    b.extend_from_slice(&0u32.to_be_bytes());
    b.extend_from_slice(&be16(csiz));
    for &(ssiz, xr, yr) in comps {
        b.extend_from_slice(&[ssiz, xr, yr]);
    }
    b
}

fn one_component() -> Vec<u8> {
    siz_body(1, &[(15, 1, 1)])
}

#[allow(clippy::too_many_arguments)]
fn cod_body(
    scod: u8,
    prog: u8,
    layers: u16,
    mct: u8,
    nl: u8,
    xcb: u8,
    ycb: u8,
    style: u8,
    transform: u8,
) -> Vec<u8> {
    let mut b = vec![scod, prog];
    b.extend_from_slice(&be16(layers));
    b.push(mct);
    b.extend_from_slice(&[nl, xcb, ycb, style, transform]);
    b
}

fn cod_default(transform: u8) -> Vec<u8> {
    cod_body(0, 0, 1, 0, 5, 4, 4, 0, transform)
}

fn qcd_none(guard: u8, exponents: &[u8]) -> Vec<u8> {
    let mut b = vec![guard << 5];
    for &e in exponents {
        b.push(e << 3);
    }
    b
}

fn qcd_expounded(guard: u8, steps: &[(u8, u16)]) -> Vec<u8> {
    let mut b = vec![(guard << 5) | 2];
    for &(e, m) in steps {
        b.extend_from_slice(&be16((u16::from(e) << 11) | (m & 0x07FF)));
    }
    b
}

fn codestream(segments: &[Vec<u8>]) -> Vec<u8> {
    let mut h = Vec::new();
    h.extend_from_slice(&be16(marker::SOC));
    for s in segments {
        h.extend_from_slice(s);
    }
    h.extend_from_slice(&be16(marker::SOT));
    h
}

#[test]
fn valid_reversible_header_parses() {
    let exps = [8u8; 16];
    let bytes = codestream(&[
        seg(marker::SIZ, &one_component()),
        seg(marker::COD, &cod_default(1)),
        seg(marker::QCD, &qcd_none(2, &exps)),
    ]);

    let (header, sot_offset, _) = parse_main_header(&bytes).expect("parse");

    assert_eq!(
        header,
        MainHeader::new(
            Siz {
                x_size: 512,
                y_size: 256,
                x_offset: 0,
                y_offset: 0,
                tile_width: 512,
                tile_height: 256,
                tile_x_offset: 0,
                tile_y_offset: 0,
                components: vec![SizComponent {
                    bit_depth: 16,
                    signed: false,
                    x_sampling: 1,
                    y_sampling: 1,
                }],
            },
            Cod {
                progression: Progression::Lrcp,
                layers: 1,
                decomposition_levels: 5,
                code_block_width: 4,
                code_block_height: 4,
                code_block_style: 0,
                use_sop: false,
                use_eph: false,
                multiple_component_transform: false,
                transform: Transform::Reversible53,
                precinct_sizes: vec![],
            },
            Qcd {
                style: QuantStyle::Unquantized,
                guard_bits: 2,
                steps: vec![(8, 0); 16],
            },
        )
    );
    assert_eq!(sot_offset, bytes.len() - 2);
    assert_eq!(&bytes[sot_offset..sot_offset + 2], &be16(marker::SOT));
}

#[test]
fn valid_irreversible_header_parses() {
    let steps = [(10u8, 1234u16); 16];
    let bytes = codestream(&[
        seg(marker::SIZ, &siz_body(1, &[(0x80 | 11, 1, 1)])),
        seg(marker::COD, &cod_default(0)),
        seg(marker::QCD, &qcd_expounded(1, &steps)),
    ]);

    let (header, _, _) = parse_main_header(&bytes).expect("parse");

    assert_eq!(header.siz.components[0].bit_depth, 12);
    assert!(header.siz.components[0].signed);
    assert_eq!(header.cod.transform, Transform::Irreversible97);
    assert_eq!(header.qcd.style, QuantStyle::ScalarExpounded);
    assert_eq!(header.qcd.guard_bits, 1);
    assert_eq!(header.qcd.steps, vec![(10, 1234); 16]);
}

#[test]
fn derived_quant_keeps_single_step() {
    let mut body = vec![(2u8 << 5) | 1];
    body.extend_from_slice(&be16((9 << 11) | 42));
    let bytes = codestream(&[
        seg(marker::SIZ, &one_component()),
        seg(marker::COD, &cod_default(0)),
        seg(marker::QCD, &body),
    ]);

    let (header, _, _) = parse_main_header(&bytes).expect("parse");
    assert_eq!(header.qcd.style, QuantStyle::ScalarDerived);
    assert_eq!(header.qcd.steps, vec![(9, 42)]);
}

#[test]
fn comment_segment_is_skipped() {
    let bytes = codestream(&[
        seg(marker::SIZ, &one_component()),
        seg(marker::COM, &[0, 1, b'h', b'i']),
        seg(marker::COD, &cod_default(1)),
        seg(marker::QCD, &qcd_none(2, &[8; 16])),
    ]);
    assert!(parse_main_header(&bytes).is_ok());
}

fn err(bytes: &[u8]) -> Error {
    parse_main_header(bytes).expect_err("should reject")
}

#[test]
fn missing_soc_is_codestream() {
    let bytes = seg(marker::SIZ, &one_component());
    assert!(matches!(err(&bytes), Error::Codestream(_)));
}

#[test]
fn siz_not_first_is_codestream() {
    let mut bytes = be16(marker::SOC).to_vec();
    bytes.extend_from_slice(&seg(marker::COD, &cod_default(1)));
    assert!(matches!(err(&bytes), Error::Codestream(_)));
}

#[test]
fn truncated_segment_is_codestream() {
    let mut bytes = be16(marker::SOC).to_vec();
    bytes.extend_from_slice(&be16(marker::SIZ));
    bytes.extend_from_slice(&be16(100));
    bytes.extend_from_slice(&[0, 0, 0, 0]);
    assert!(matches!(err(&bytes), Error::Codestream(_)));
}

#[test]
fn trailing_bytes_in_siz_is_codestream() {
    let mut body = one_component();
    body.push(0xAB);
    let bytes = codestream(&[
        seg(marker::SIZ, &body),
        seg(marker::COD, &cod_default(1)),
        seg(marker::QCD, &qcd_none(2, &[8; 16])),
    ]);
    assert!(matches!(err(&bytes), Error::Codestream(_)));
}

#[test]
fn multiple_components_parse() {
    let bytes = codestream(&[
        seg(
            marker::SIZ,
            &siz_body(3, &[(15, 1, 1), (7, 2, 2), (7, 2, 2)]),
        ),
        seg(marker::COD, &cod_default(1)),
        seg(marker::QCD, &qcd_none(2, &[8; 16])),
    ]);
    let (header, _, _) = parse_main_header(&bytes).expect("multi-component header parses");
    assert_eq!(header.siz.components.len(), 3);
    assert_eq!(header.siz.component_extent(0), Some((512, 256)));
    assert_eq!(header.siz.component_extent(1), Some((256, 128)));
    assert_eq!(header.siz.components[1].bit_depth, 8);
}

#[test]
fn zero_components_is_marker() {
    let bytes = codestream(&[seg(marker::SIZ, &siz_body(0, &[]))]);
    assert!(matches!(err(&bytes), Error::Marker(_)));
}

#[allow(clippy::too_many_arguments)]
fn siz_geom(x: u32, y: u32, xo: u32, yo: u32, xt: u32, yt: u32, xto: u32, yto: u32) -> Vec<u8> {
    let mut b = Vec::new();
    b.extend_from_slice(&be16(0));
    for v in [x, y, xo, yo, xt, yt, xto, yto] {
        b.extend_from_slice(&v.to_be_bytes());
    }
    b.extend_from_slice(&be16(1));
    b.extend_from_slice(&[15, 1, 1]);
    b
}

#[test]
fn zero_size_image_is_marker() {
    let bytes = codestream(&[seg(marker::SIZ, &siz_geom(0, 256, 0, 0, 512, 256, 0, 0))]);
    assert!(matches!(err(&bytes), Error::Marker(_)));
}

#[test]
fn a_nonzero_image_and_tile_offset_is_accepted() {
    let mut siz = siz_of(1, &[(8, 1, 1)]);
    siz.x_size = 128;
    siz.y_size = 128;
    siz.x_offset = 5;
    siz.y_offset = 3;
    siz.tile_x_offset = 1;
    siz.tile_y_offset = 2;
    assert!(validate_geometry(&siz).is_ok());
}

#[test]
fn an_image_offset_at_or_past_the_far_edge_is_marker() {
    let mut siz = siz_of(1, &[(8, 1, 1)]);
    siz.x_size = 64;
    siz.y_size = 64;
    siz.x_offset = 64;
    assert!(matches!(validate_geometry(&siz), Err(Error::Marker(_))));
}

#[test]
fn a_tile_offset_past_the_image_offset_is_marker() {
    let mut siz = siz_of(1, &[(8, 1, 1)]);
    siz.x_size = 64;
    siz.y_size = 64;
    siz.x_offset = 2;
    siz.tile_x_offset = 3;
    assert!(matches!(validate_geometry(&siz), Err(Error::Marker(_))));
}

#[test]
fn a_first_tile_that_never_reaches_the_image_is_marker() {
    let mut siz = siz_of(1, &[(8, 1, 1)]);
    siz.x_size = 64;
    siz.y_size = 64;
    siz.x_offset = 10;
    siz.tile_x_offset = 0;
    siz.tile_width = 8;
    assert!(matches!(validate_geometry(&siz), Err(Error::Marker(_))));
}

#[test]
fn zero_size_tile_is_marker() {
    let bytes = codestream(&[seg(marker::SIZ, &siz_geom(512, 256, 0, 0, 0, 256, 0, 0))]);
    assert!(matches!(err(&bytes), Error::Marker(_)));
}

#[test]
fn a_tile_grid_past_the_isot_range_is_marker() {
    let bytes = codestream(&[seg(marker::SIZ, &siz_geom(65536, 1, 0, 0, 1, 1, 0, 0))]);
    assert!(matches!(err(&bytes), Error::Marker(_)));

    let bytes = codestream(&[seg(marker::SIZ, &siz_geom(65535, 1, 0, 0, 1, 1, 0, 0))]);
    assert!(
        matches!(err(&bytes), Error::Codestream(_)),
        "reaches the missing-COD check"
    );
}

#[test]
fn the_tile_grid_covers_the_image_with_clipped_edge_tiles() {
    let header = parsed(&[
        seg(marker::SIZ, &siz_geom(40, 40, 0, 0, 16, 16, 0, 0)),
        seg(marker::COD, &cod_default(1)),
        seg(marker::QCD, &qcd_none(2, &[8; 16])),
    ]);
    let siz = &header.siz;
    assert_eq!(siz.tile_grid(), (3, 3));
    assert_eq!(siz.num_tiles(), 9);

    let rect = |i| siz.tile_rect(i).expect("tile in the grid");
    assert_eq!(
        (rect(0).x0, rect(0).y0, rect(0).x1, rect(0).y1),
        (0, 0, 16, 16)
    );
    assert_eq!(
        (rect(1).x0, rect(1).x1),
        (16, 32),
        "tiles are numbered in raster order"
    );
    assert_eq!(
        (rect(2).x0, rect(2).x1),
        (32, 40),
        "the last column is clipped to the image"
    );
    assert_eq!(
        (rect(8).x0, rect(8).y0, rect(8).x1, rect(8).y1),
        (32, 32, 40, 40)
    );
    assert!(siz.tile_rect(9).is_none(), "past the grid");

    let area: u64 = (0..siz.num_tiles()).map(|i| rect(i).area()).sum();
    assert_eq!(area, 40 * 40);
}

#[test]
fn oversize_image_area_is_a_limit() {
    let n = 16384;
    let bytes = codestream(&[seg(marker::SIZ, &siz_geom(n, n, 0, 0, n, n, 0, 0))]);
    assert!(matches!(err(&bytes), Error::Limit(_)));
}

#[test]
fn tile_larger_than_image_is_accepted() {
    let exps = [8u8; 16];
    let bytes = codestream(&[
        seg(marker::SIZ, &siz_geom(512, 256, 0, 0, 1024, 512, 0, 0)),
        seg(marker::COD, &cod_default(1)),
        seg(marker::QCD, &qcd_none(2, &exps)),
    ]);
    assert!(parse_main_header(&bytes).is_ok());
}

#[test]
fn every_progression_order_parses() {
    for (code, want) in [
        (0, Progression::Lrcp),
        (1, Progression::Rlcp),
        (2, Progression::Rpcl),
        (3, Progression::Pcrl),
        (4, Progression::Cprl),
    ] {
        let bytes = codestream(&[
            seg(marker::SIZ, &one_component()),
            seg(marker::COD, &cod_body(0, code, 1, 0, 5, 4, 4, 0, 1)),
            seg(marker::QCD, &qcd_none(2, &[8; 16])),
        ]);
        let (header, _, _) = parse_main_header(&bytes).unwrap_or_else(|e| panic!("{code}: {e:?}"));
        assert_eq!(header.cod.progression, want, "progression code {code}");
    }
}

#[test]
fn reserved_progression_order_is_marker() {
    let bytes = codestream(&[
        seg(marker::SIZ, &one_component()),
        seg(marker::COD, &cod_body(0, 5, 1, 0, 5, 4, 4, 0, 1)),
    ]);
    assert!(matches!(err(&bytes), Error::Marker(_)));
}

#[test]
fn reserved_progression_is_marker() {
    let bytes = codestream(&[
        seg(marker::SIZ, &one_component()),
        seg(marker::COD, &cod_body(0, 7, 1, 0, 5, 4, 4, 0, 1)),
    ]);
    assert!(matches!(err(&bytes), Error::Marker(_)));
}

#[test]
fn multiple_layers_parse() {
    let bytes = codestream(&[
        seg(marker::SIZ, &one_component()),
        seg(marker::COD, &cod_body(0, 0, 5, 0, 5, 4, 4, 0, 1)),
        seg(marker::QCD, &qcd_none(2, &[8; 16])),
    ]);
    let (header, _, _) = parse_main_header(&bytes).expect("multi-layer header parses");
    assert_eq!(header.cod.layers, 5);
}

#[test]
fn zero_layers_is_marker() {
    let bytes = codestream(&[
        seg(marker::SIZ, &one_component()),
        seg(marker::COD, &cod_body(0, 0, 0, 0, 5, 4, 4, 0, 1)),
    ]);
    assert!(matches!(err(&bytes), Error::Marker(_)));
}

fn with_precincts(sizes: &[u8]) -> Vec<u8> {
    let mut cod = cod_body(0x01, 0, 1, 0, 2, 4, 4, 0, 1);
    cod.extend_from_slice(sizes);
    let header = vec![
        seg(marker::SIZ, &one_component()),
        seg(marker::COD, &cod),
        seg(marker::QCD, &qcd_none(2, &[8; 7])),
    ];
    let data = [0xDE, 0xAD];
    assemble(&header, &sot_seg(0, psot_for(&data), 0, 1), &data, true)
}

#[test]
fn explicit_precinct_sizes_parse_from_spcod() {
    let bytes = with_precincts(&[0x10, 0x56, 0x77]);
    let cs = parse(&bytes).expect("explicit precincts parse");
    assert_eq!(
        cs.header.cod.precinct_sizes,
        vec![(0, 1), (6, 5), (7, 7)],
        "PPx is the low nibble, PPy the high one"
    );
    let coding = &cs.header.components[0].coding;
    assert_eq!(coding.precinct(0), (0, 1));
    assert_eq!(coding.precinct(2), (7, 7));
}

#[test]
fn an_implicit_precinct_partition_is_maximal() {
    let data = [0xDE, 0xAD];
    let bytes = assemble(
        &default_header(),
        &sot_seg(0, psot_for(&data), 0, 1),
        &data,
        true,
    );
    let cs = parse(&bytes).expect("implicit precincts parse");
    assert!(cs.header.cod.precinct_sizes.is_empty());
    assert_eq!(cs.header.components[0].coding.precinct(0), (15, 15));
    assert_eq!(cs.header.components[0].coding.precinct(5), (15, 15));
}

#[test]
fn a_zero_precinct_exponent_above_resolution_zero_is_a_marker_error() {
    assert!(
        parse(&with_precincts(&[0x00, 0x55, 0x55])).is_ok(),
        "2^0 is legal at resolution 0"
    );
    for sizes in [[0x55, 0x50, 0x55], [0x55, 0x05, 0x55]] {
        assert!(
            matches!(perr(&with_precincts(&sizes)), Error::Marker(_)),
            "{sizes:02X?}"
        );
    }
}

#[test]
fn sop_and_eph_flags_parse_independently() {
    for (scod, sop, eph) in [
        (0x00, false, false),
        (0x02, true, false),
        (0x04, false, true),
        (0x06, true, true),
    ] {
        let bytes = codestream(&[
            seg(marker::SIZ, &one_component()),
            seg(marker::COD, &cod_body(scod, 0, 1, 0, 5, 4, 4, 0, 1)),
            seg(marker::QCD, &qcd_none(2, &[8; 16])),
        ]);
        let (header, _, _) =
            parse_main_header(&bytes).unwrap_or_else(|e| panic!("{scod:#04X}: {e:?}"));
        assert_eq!(
            (header.cod.use_sop, header.cod.use_eph),
            (sop, eph),
            "Scod {scod:#04X}"
        );
    }
}

#[test]
fn reserved_scod_bits_are_marker() {
    let bytes = codestream(&[
        seg(marker::SIZ, &one_component()),
        seg(marker::COD, &cod_body(0x08, 0, 1, 0, 5, 4, 4, 0, 1)),
    ]);
    assert!(matches!(err(&bytes), Error::Marker(_)));
}

#[test]
fn reversible_colour_transform_parses() {
    let bytes = codestream(&[
        seg(marker::SIZ, &siz_body(3, &[(7, 1, 1); 3])),
        seg(marker::COD, &cod_body(0, 0, 1, 1, 5, 4, 4, 0, 1)),
        seg(marker::QCD, &qcd_none(2, &[8; 16])),
    ]);
    let (header, _, _) = parse_main_header(&bytes).expect("RCT header parses");
    assert!(header.cod.multiple_component_transform);
    assert_eq!(header.cod.transform, Transform::Reversible53);
}

#[test]
fn irreversible_colour_transform_parses() {
    let header = parsed(&[
        seg(marker::SIZ, &siz_body(3, &[(7, 1, 1); 3])),
        seg(marker::COD, &cod_body(0, 0, 1, 1, 5, 4, 4, 0, 0)),
        seg(marker::QCD, &qcd_expounded(2, &[(8, 0); 16])),
    ]);
    assert!(header.cod.multiple_component_transform);
    assert_eq!(header.cod.transform, Transform::Irreversible97);
}

#[test]
fn a_colour_transform_over_mixed_wavelets_is_unsupported() {
    let bytes = codestream(&[
        seg(marker::SIZ, &siz_body(3, &[(7, 1, 1); 3])),
        seg(marker::COD, &cod_body(0, 0, 1, 1, 5, 4, 4, 0, 0)),
        seg(marker::COC, &coc_body(&[1], 0, 5, 4, 4, 0, 1)),
        seg(marker::QCD, &qcd_expounded(2, &[(8, 0); 16])),
    ]);
    assert!(matches!(err(&bytes), Error::Unsupported(_)));
}

#[test]
fn array_multiple_component_transform_is_unsupported() {
    let bytes = codestream(&[
        seg(marker::SIZ, &siz_body(3, &[(7, 1, 1); 3])),
        seg(marker::COD, &cod_body(0, 0, 1, 2, 5, 4, 4, 0, 1)),
    ]);
    assert!(matches!(err(&bytes), Error::Unsupported(_)));
}

#[test]
fn colour_transform_needs_three_components() {
    let bytes = codestream(&[
        seg(marker::SIZ, &one_component()),
        seg(marker::COD, &cod_body(0, 0, 1, 1, 5, 4, 4, 0, 1)),
        seg(marker::QCD, &qcd_none(2, &[8; 16])),
    ]);
    let e = err(&bytes);
    assert!(
        matches!(&e, Error::Marker(m) if m.contains("first three")),
        "got {e:?}"
    );
}

#[test]
fn colour_transform_needs_matching_components() {
    let bytes = codestream(&[
        seg(
            marker::SIZ,
            &siz_body(3, &[(7, 1, 1), (11, 1, 1), (7, 1, 1)]),
        ),
        seg(marker::COD, &cod_body(0, 0, 1, 1, 5, 4, 4, 0, 1)),
        seg(marker::QCD, &qcd_none(2, &[8; 16])),
    ]);
    assert!(matches!(err(&bytes), Error::Marker(_)));
}

#[test]
fn reserved_transform_is_marker() {
    let bytes = codestream(&[
        seg(marker::SIZ, &one_component()),
        seg(marker::COD, &cod_body(0, 0, 1, 0, 5, 4, 4, 0, 5)),
    ]);
    assert!(matches!(err(&bytes), Error::Marker(_)));
}

#[test]
fn out_of_subset_marker_is_unsupported() {
    let bytes = codestream(&[
        seg(marker::SIZ, &one_component()),
        seg(marker::COD, &cod_default(1)),
        seg(marker::CAP, &[0, 0]),
        seg(marker::QCD, &qcd_none(2, &[8; 16])),
    ]);
    assert!(matches!(err(&bytes), Error::Unsupported(_)));
}

#[test]
fn a_poc_marker_parses_into_volumes() {
    let poc = [0u8, 0, 0, 1, 6, 1, 0];
    let header = vec![
        seg(marker::SIZ, &one_component()),
        seg(marker::COD, &cod_default(1)),
        seg(marker::POC, &poc),
        seg(marker::QCD, &qcd_none(2, &[8; 16])),
    ];
    let data = [0xDE, 0xAD];
    let bytes = assemble(&header, &sot_seg(0, psot_for(&data), 0, 1), &data, true);
    let cs = parse(&bytes).expect("POC parses");
    assert_eq!(cs.header.poc.len(), 1);
    let v = cs.header.poc[0];
    assert_eq!((v.res_start, v.res_end), (0, 6));
    assert_eq!((v.comp_start, v.comp_end), (0, 1));
    assert_eq!(v.layer_end, 1);
    assert_eq!(v.progression, Progression::Lrcp);
}

fn poc_volumes(n: usize) -> Vec<u8> {
    [0u8, 0, 0, 1, 6, 1, 0]
        .iter()
        .copied()
        .cycle()
        .take(7 * n)
        .collect()
}

#[test]
fn a_poc_volume_with_zero_layers_is_a_marker_error() {
    let poc = [0u8, 0, 0, 0, 6, 1, 0];
    let bytes = codestream(&[
        seg(marker::SIZ, &one_component()),
        seg(marker::COD, &cod_default(1)),
        seg(marker::POC, &poc),
        seg(marker::QCD, &qcd_none(2, &[8; 16])),
    ]);
    assert!(matches!(err(&bytes), Error::Marker(_)));
}

#[test]
fn a_poc_past_the_volume_guard_is_a_limit() {
    let header = |poc_segs: &[Vec<u8>]| {
        let mut h = vec![
            seg(marker::SIZ, &one_component()),
            seg(marker::COD, &cod_default(1)),
        ];
        h.extend(poc_segs.iter().cloned());
        h.push(seg(marker::QCD, &qcd_none(2, &[8; 16])));
        h
    };
    let at_cap = codestream(&header(&[seg(marker::POC, &poc_volumes(32))]));
    assert!(
        parse_main_header(&at_cap).is_ok(),
        "32 volumes are within the guard"
    );

    let one_marker = codestream(&header(&[seg(marker::POC, &poc_volumes(33))]));
    assert!(matches!(err(&one_marker), Error::Limit(_)));

    let split = codestream(&header(&[
        seg(marker::POC, &poc_volumes(20)),
        seg(marker::POC, &poc_volumes(13)),
    ]));
    assert!(matches!(err(&split), Error::Limit(_)));
}

#[test]
fn main_and_tile_poc_volumes_share_the_guard() {
    let header = vec![
        seg(marker::SIZ, &one_component()),
        seg(marker::COD, &cod_default(1)),
        seg(marker::POC, &poc_volumes(32)),
        seg(marker::QCD, &qcd_none(2, &[8; 16])),
    ];
    let tile_poc = seg(marker::POC, &poc_volumes(1));
    let bytes = assemble_with_tile_markers(&header, &[tile_poc], &[1, 2]);
    let error = parse(&bytes).expect_err("33 combined volumes should reject");
    assert!(matches!(error, Error::Limit(_)));
}

fn crg_body(offsets: &[(u16, u16)]) -> Vec<u8> {
    let mut b = Vec::with_capacity(offsets.len() * 4);
    for &(x, y) in offsets {
        b.extend_from_slice(&be16(x));
        b.extend_from_slice(&be16(y));
    }
    b
}

#[test]
fn a_crg_marker_records_the_registration_offsets() {
    let header = vec![
        seg(marker::SIZ, &siz_body(3, &[(15, 1, 1); 3])),
        seg(marker::COD, &cod_default(1)),
        seg(
            marker::CRG,
            &crg_body(&[(65424, 32558), (0, 0), (1, 0xFFFF)]),
        ),
        seg(marker::QCD, &qcd_none(2, &[8; 16])),
    ];
    let data = [0xDE, 0xAD];
    let bytes = assemble(&header, &sot_seg(0, psot_for(&data), 0, 1), &data, true);
    let cs = parse(&bytes).expect("CRG parses");
    assert_eq!(cs.header.crg, vec![(65424, 32558), (0, 0), (1, 0xFFFF)]);
}

#[test]
fn a_crg_of_the_wrong_length_is_a_marker_error() {
    let bytes = codestream(&[
        seg(marker::SIZ, &siz_body(2, &[(15, 1, 1); 2])),
        seg(marker::COD, &cod_default(1)),
        seg(marker::CRG, &crg_body(&[(1, 2)])),
        seg(marker::QCD, &qcd_none(2, &[8; 16])),
    ]);
    assert!(matches!(err(&bytes), Error::Marker(_)));
}

#[test]
fn a_duplicate_crg_is_a_codestream_error() {
    let crg = seg(marker::CRG, &crg_body(&[(1, 2)]));
    let mut segs = vec![
        seg(marker::SIZ, &one_component()),
        seg(marker::COD, &cod_default(1)),
    ];
    segs.push(crg.clone());
    segs.push(crg);
    segs.push(seg(marker::QCD, &qcd_none(2, &[8; 16])));
    assert!(matches!(err(&codestream(&segs)), Error::Codestream(_)));
}

#[test]
fn missing_cod_is_codestream() {
    let bytes = codestream(&[
        seg(marker::SIZ, &one_component()),
        seg(marker::QCD, &qcd_none(2, &[8; 16])),
    ]);
    assert!(matches!(err(&bytes), Error::Codestream(_)));
}

#[test]
fn missing_qcd_is_codestream() {
    let bytes = codestream(&[
        seg(marker::SIZ, &one_component()),
        seg(marker::COD, &cod_default(1)),
    ]);
    assert!(matches!(err(&bytes), Error::Codestream(_)));
}

#[test]
fn duplicate_cod_is_codestream() {
    let bytes = codestream(&[
        seg(marker::SIZ, &one_component()),
        seg(marker::COD, &cod_default(1)),
        seg(marker::COD, &cod_default(1)),
        seg(marker::QCD, &qcd_none(2, &[8; 16])),
    ]);
    assert!(matches!(err(&bytes), Error::Codestream(_)));
}

#[test]
fn reserved_decomposition_levels_is_marker() {
    let bytes = codestream(&[
        seg(marker::SIZ, &one_component()),
        seg(marker::COD, &cod_body(0, 0, 1, 0, 33, 4, 4, 0, 1)),
        seg(marker::QCD, &qcd_none(2, &[8; 97])),
    ]);
    assert!(matches!(err(&bytes), Error::Marker(_)));
}

#[test]
fn too_few_qcd_steps_for_the_decomposition_is_marker() {
    let bytes = codestream(&[
        seg(marker::SIZ, &one_component()),
        seg(marker::COD, &cod_default(1)),
        seg(marker::QCD, &qcd_none(2, &[8; 10])),
    ]);
    assert!(matches!(err(&bytes), Error::Marker(_)));
}

#[test]
fn too_few_expounded_qcd_steps_is_marker() {
    let bytes = codestream(&[
        seg(marker::SIZ, &one_component()),
        seg(marker::COD, &cod_default(0)),
        seg(marker::QCD, &qcd_expounded(1, &[(10, 1234); 3])),
    ]);
    assert!(matches!(err(&bytes), Error::Marker(_)));
}

#[test]
fn irreversible_wavelet_with_no_quantization_is_marker() {
    let bytes = codestream(&[
        seg(marker::SIZ, &one_component()),
        seg(marker::COD, &cod_default(0)),
        seg(marker::QCD, &qcd_none(2, &[8; 16])),
    ]);
    assert!(matches!(err(&bytes), Error::Marker(_)));
}

#[test]
fn reserved_quant_style_is_marker() {
    let mut body = vec![(2u8 << 5) | 3];
    body.extend_from_slice(&be16(0));
    let bytes = codestream(&[
        seg(marker::SIZ, &one_component()),
        seg(marker::COD, &cod_default(0)),
        seg(marker::QCD, &body),
    ]);
    assert!(matches!(err(&bytes), Error::Marker(_)));
}

#[test]
fn oversized_qcd_step_table_is_capped() {
    let bytes = codestream(&[
        seg(marker::SIZ, &one_component()),
        seg(marker::COD, &cod_default(1)),
        seg(marker::QCD, &qcd_none(2, &[8; 120])),
    ]);
    let (header, _, _) = parse_main_header(&bytes).expect("padding parses");
    assert_eq!(header.qcd.steps.len(), 97);
    assert_eq!(header.qcd.steps[0], (8, 0));
}

#[test]
fn oversized_expounded_qcd_step_table_is_capped() {
    let bytes = codestream(&[
        seg(marker::SIZ, &one_component()),
        seg(marker::COD, &cod_default(0)),
        seg(marker::QCD, &qcd_expounded(1, &[(10, 1234); 120])),
    ]);
    let (header, _, _) = parse_main_header(&bytes).expect("padding parses");
    assert_eq!(header.qcd.steps.len(), 97);
    assert_eq!(header.qcd.steps[0], (10, 1234));
}

#[test]
fn full_depth_qcd_step_table_parses() {
    let bytes = codestream(&[
        seg(marker::SIZ, &one_component()),
        seg(marker::COD, &cod_default(1)),
        seg(marker::QCD, &qcd_none(2, &[8; 97])),
    ]);
    assert!(parse_main_header(&bytes).is_ok());
}

#[test]
fn eoc_before_tile_part_is_codestream() {
    let mut bytes = be16(marker::SOC).to_vec();
    bytes.extend_from_slice(&seg(marker::SIZ, &one_component()));
    bytes.extend_from_slice(&seg(marker::COD, &cod_default(1)));
    bytes.extend_from_slice(&seg(marker::QCD, &qcd_none(2, &[8; 16])));
    bytes.extend_from_slice(&be16(marker::EOC));
    assert!(matches!(err(&bytes), Error::Codestream(_)));
}

#[test]
fn non_marker_ff00_and_ffff_are_lost_sync() {
    for code in [0xFF00u16, 0xFFFF] {
        let mut bytes = be16(marker::SOC).to_vec();
        bytes.extend_from_slice(&seg(marker::SIZ, &one_component()));
        bytes.extend_from_slice(&be16(code));
        bytes.extend_from_slice(&[0x00, 0x04, 0xAA, 0xBB]);
        assert!(matches!(err(&bytes), Error::Codestream(_)), "{code:#06X}");
    }
}

#[test]
fn unknown_marker_without_a_length_is_codestream() {
    let mut bytes = be16(marker::SOC).to_vec();
    bytes.extend_from_slice(&seg(marker::SIZ, &one_component()));
    bytes.extend_from_slice(&be16(0xFF01));
    assert!(matches!(err(&bytes), Error::Codestream(_)));
}

fn sot_seg(isot: u16, psot: u32, tpsot: u8, tnsot: u8) -> Vec<u8> {
    let mut body = Vec::new();
    body.extend_from_slice(&be16(isot));
    body.extend_from_slice(&psot.to_be_bytes());
    body.push(tpsot);
    body.push(tnsot);
    seg(marker::SOT, &body)
}

fn default_header() -> Vec<Vec<u8>> {
    vec![
        seg(marker::SIZ, &one_component()),
        seg(marker::COD, &cod_default(1)),
        seg(marker::QCD, &qcd_none(2, &[8; 16])),
    ]
}

fn assemble(header: &[Vec<u8>], sot: &[u8], data: &[u8], eoc: bool) -> Vec<u8> {
    let mut s = be16(marker::SOC).to_vec();
    for part in header {
        s.extend_from_slice(part);
    }
    s.extend_from_slice(sot);
    s.extend_from_slice(&be16(marker::SOD));
    s.extend_from_slice(data);
    if eoc {
        s.extend_from_slice(&be16(marker::EOC));
    }
    s
}

fn psot_for(data: &[u8]) -> u32 {
    (12 + 2 + data.len()) as u32
}

fn perr(bytes: &[u8]) -> Error {
    parse(bytes).expect_err("should reject")
}

#[test]
fn valid_single_tile_part_parses() {
    let data = [0xDE, 0xAD, 0xBE, 0xEF];
    let sot = sot_seg(0, psot_for(&data), 0, 1);
    let bytes = assemble(&default_header(), &sot, &data, true);

    let cs = parse(&bytes).expect("parse");
    assert_eq!(cs.tiles.len(), 1);
    assert_eq!(cs.tiles[0].index, 0);
    assert_eq!(cs.tiles[0].data.as_ref(), &data[..]);
    assert_eq!(cs.header.cod.transform, Transform::Reversible53);
}

#[test]
fn psot_zero_runs_to_eoc() {
    let data = [1, 2, 3, 4, 5];
    let sot = sot_seg(0, 0, 0, 1);
    let bytes = assemble(&default_header(), &sot, &data, true);

    let cs = parse(&bytes).expect("parse");
    assert_eq!(cs.tiles[0].data.as_ref(), &data[..]);
}

#[test]
fn trailing_bytes_after_eoc_are_ignored_when_psot_declares_the_length() {
    let data = [1, 2, 3, 4, 5];
    let sot = sot_seg(0, psot_for(&data), 0, 1);
    let mut bytes = assemble(&default_header(), &sot, &data, true);
    bytes.extend_from_slice(&[0xAB, 0xCD, 0xFF, 0xD9]);
    let cs = parse(&bytes).expect("trailing bytes after the declared extent");
    assert_eq!(cs.tiles[0].data.as_ref(), &data[..]);

    let sot = sot_seg(0, 0, 0, 1);
    let mut bytes = assemble(&default_header(), &sot, &data, true);
    bytes.extend_from_slice(&[0xAB, 0xCD, 0xFF, 0xD9]);
    let cs = parse(&bytes).expect("EOC anchored at the buffer end");
    assert_eq!(cs.tiles[0].data.len(), data.len() + 4);
}

#[test]
fn empty_tile_part_data_parses() {
    let sot = sot_seg(0, psot_for(&[]), 0, 1);
    let bytes = assemble(&default_header(), &sot, &[], true);

    let cs = parse(&bytes).expect("parse");
    assert!(cs.tiles[0].data.is_empty());
}

#[test]
fn tile_part_header_comment_is_skipped() {
    let data = [9, 9];
    let com = seg(marker::COM, &[0, 1, b'x']);
    let psot = (12 + com.len() + 2 + data.len()) as u32;

    let mut bytes = be16(marker::SOC).to_vec();
    for part in default_header() {
        bytes.extend_from_slice(&part);
    }
    bytes.extend_from_slice(&sot_seg(0, psot, 0, 1));
    bytes.extend_from_slice(&com);
    bytes.extend_from_slice(&be16(marker::SOD));
    bytes.extend_from_slice(&data);
    bytes.extend_from_slice(&be16(marker::EOC));

    let cs = parse(&bytes).expect("parse");
    assert_eq!(cs.tiles[0].data.as_ref(), &data[..]);
}

#[test]
fn a_tile_index_past_the_grid_is_codestream() {
    let sot = sot_seg(1, 0, 0, 1);
    let bytes = assemble(&default_header(), &sot, &[1, 2], true);
    assert!(matches!(perr(&bytes), Error::Codestream(_)));
}

#[test]
fn a_tnsot_the_tile_parts_do_not_add_up_to_is_codestream() {
    let data = [1, 2];
    let sot = sot_seg(0, psot_for(&data), 0, 2);
    let bytes = assemble(&default_header(), &sot, &data, true);
    assert!(matches!(perr(&bytes), Error::Codestream(_)));
}

#[test]
fn a_tile_part_index_out_of_order_is_codestream() {
    let sot = sot_seg(0, 0, 1, 1);
    let bytes = assemble(&default_header(), &sot, &[1, 2], true);
    assert!(matches!(perr(&bytes), Error::Codestream(_)));
}

#[test]
fn several_tile_parts_of_one_tile_are_joined_in_order() {
    let first_data = [7, 7, 7];
    let first = sot_seg(0, psot_for(&first_data), 0, 0);

    let mut bytes = be16(marker::SOC).to_vec();
    for part in default_header() {
        bytes.extend_from_slice(&part);
    }
    bytes.extend_from_slice(&first);
    bytes.extend_from_slice(&be16(marker::SOD));
    bytes.extend_from_slice(&first_data);
    bytes.extend_from_slice(&sot_seg(0, 0, 1, 2));
    bytes.extend_from_slice(&be16(marker::SOD));
    bytes.extend_from_slice(&[8, 8]);
    bytes.extend_from_slice(&be16(marker::EOC));

    let cs = parse(&bytes).expect("two tile-parts of one tile");
    assert_eq!(cs.tiles.len(), 1);
    assert_eq!(cs.tiles[0].data.as_ref(), &[7, 7, 7, 8, 8]);
}

#[test]
fn a_tile_with_no_tile_part_is_codestream() {
    let header = vec![
        seg(marker::SIZ, &siz_geom(512, 256, 0, 0, 256, 256, 0, 0)),
        seg(marker::COD, &cod_default(1)),
        seg(marker::QCD, &qcd_none(2, &[8; 16])),
    ];
    let bytes = assemble(&header, &sot_seg(0, 0, 0, 1), &[1, 2], true);
    assert!(matches!(perr(&bytes), Error::Codestream(_)));
}

#[test]
fn ppm_chunks_split_by_nppm_across_markers() {
    let one = decode_ppm_chunks(vec![(0, vec![0, 0, 0, 1, 0xAA, 0, 0, 0, 2, 0xBB, 0xCC])]).unwrap();
    assert_eq!(one, vec![vec![0xAA], vec![0xBB, 0xCC]]);

    let split =
        decode_ppm_chunks(vec![(1, vec![0xBB, 0xCC]), (0, vec![0, 0, 0, 3, 0xAA])]).unwrap();
    assert_eq!(split, vec![vec![0xAA, 0xBB, 0xCC]]);

    assert_eq!(
        decode_ppm_chunks(vec![(0, vec![0, 0, 0, 0])]).unwrap(),
        vec![Vec::<u8>::new()]
    );

    assert_eq!(decode_ppm_chunks(vec![]).unwrap(), Vec::<Vec<u8>>::new());
}

#[test]
fn ppm_chunks_reject_malformed_framing() {
    assert!(matches!(
        decode_ppm_chunks(vec![(0, vec![0, 0, 0, 5, 0xAA])]),
        Err(Error::Codestream(_))
    ));
    assert!(matches!(
        decode_ppm_chunks(vec![(0, vec![0, 0, 0])]),
        Err(Error::Codestream(_))
    ));
    assert!(matches!(
        decode_ppm_chunks(vec![(0, vec![0, 0, 0, 0]), (0, vec![0, 0, 0, 0])]),
        Err(Error::Codestream(_))
    ));
}

#[test]
fn tile_part_ppt_collects_the_packed_headers() {
    let data = [0xBB, 0xBB];
    let ppt1 = seg(marker::PPT, &[1, 0xCD]);
    let ppt0 = seg(marker::PPT, &[0, 0xAB]);
    let psot = (12 + ppt1.len() + ppt0.len() + 2 + data.len()) as u32;

    let mut bytes = be16(marker::SOC).to_vec();
    for part in default_header() {
        bytes.extend_from_slice(&part);
    }
    bytes.extend_from_slice(&sot_seg(0, psot, 0, 1));
    bytes.extend_from_slice(&ppt1);
    bytes.extend_from_slice(&ppt0);
    bytes.extend_from_slice(&be16(marker::SOD));
    bytes.extend_from_slice(&data);
    bytes.extend_from_slice(&be16(marker::EOC));

    let cs = parse(&bytes).expect("PPT parses");
    assert_eq!(cs.tiles[0].packed_headers, vec![0xAB, 0xCD]);
    assert_eq!(cs.tiles[0].data.as_ref(), &data[..]);
}

#[test]
fn tile_part_duplicate_zppt_is_a_codestream_error() {
    let data = [0xBB];
    let a = seg(marker::PPT, &[0, 0x11]);
    let b = seg(marker::PPT, &[0, 0x22]);
    let psot = (12 + a.len() + b.len() + 2 + data.len()) as u32;

    let mut bytes = be16(marker::SOC).to_vec();
    for part in default_header() {
        bytes.extend_from_slice(&part);
    }
    bytes.extend_from_slice(&sot_seg(0, psot, 0, 1));
    bytes.extend_from_slice(&a);
    bytes.extend_from_slice(&b);
    bytes.extend_from_slice(&be16(marker::SOD));
    bytes.extend_from_slice(&data);
    bytes.extend_from_slice(&be16(marker::EOC));

    assert!(matches!(perr(&bytes), Error::Codestream(_)));
}

#[test]
fn structurally_illegal_tile_header_marker_is_codestream() {
    let data = [1, 2];
    for illegal in [seg(marker::TLM, &[0, 0x60]), seg(marker::SOP, &[0, 0])] {
        let psot = (12 + illegal.len() + 2 + data.len()) as u32;
        let mut bytes = be16(marker::SOC).to_vec();
        for part in default_header() {
            bytes.extend_from_slice(&part);
        }
        bytes.extend_from_slice(&sot_seg(0, psot, 0, 1));
        bytes.extend_from_slice(&illegal);
        bytes.extend_from_slice(&be16(marker::SOD));
        bytes.extend_from_slice(&data);
        bytes.extend_from_slice(&be16(marker::EOC));

        assert!(matches!(perr(&bytes), Error::Codestream(_)));
    }
}

#[test]
fn unexpected_tile_header_marker_is_codestream() {
    let mut bytes = be16(marker::SOC).to_vec();
    for part in default_header() {
        bytes.extend_from_slice(&part);
    }
    bytes.extend_from_slice(&sot_seg(0, 0, 0, 1));
    bytes.extend_from_slice(&be16(0xFF30));
    assert!(matches!(perr(&bytes), Error::Codestream(_)));
}

#[test]
fn psot_overrun_is_codestream() {
    let data = [1, 2];
    let sot = sot_seg(0, 9999, 0, 1);
    let bytes = assemble(&default_header(), &sot, &data, true);
    assert!(matches!(perr(&bytes), Error::Codestream(_)));
}

#[test]
fn missing_eoc_is_codestream() {
    let data = [1, 2];
    let sot = sot_seg(0, psot_for(&data), 0, 1);
    let bytes = assemble(&default_header(), &sot, &data, false);
    assert!(matches!(perr(&bytes), Error::Codestream(_)));
}

#[test]
fn psot_zero_without_eoc_is_codestream() {
    let data = [1, 2, 3];
    let sot = sot_seg(0, 0, 0, 1);
    let bytes = assemble(&default_header(), &sot, &data, false);
    assert!(matches!(perr(&bytes), Error::Codestream(_)));
}

#[test]
fn truncated_sot_is_codestream() {
    let mut bytes = be16(marker::SOC).to_vec();
    for part in default_header() {
        bytes.extend_from_slice(&part);
    }
    bytes.extend_from_slice(&be16(marker::SOT));
    bytes.extend_from_slice(&be16(10));
    bytes.extend_from_slice(&[0, 0]);
    assert!(matches!(perr(&bytes), Error::Codestream(_)));
}

fn siz_of(csiz: u16, comps: &[(u8, u8, u8)]) -> Siz {
    let body = siz_body(csiz, comps);
    decode_siz(Cursor::new(&body)).expect("SIZ parses")
}

#[test]
fn multi_component_siz_parses_every_component() {
    let siz = siz_of(3, &[(7, 1, 1), (0x80 | 11, 1, 1), (0, 1, 1)]);
    assert_eq!(
        siz.components,
        vec![
            SizComponent {
                bit_depth: 8,
                signed: false,
                x_sampling: 1,
                y_sampling: 1
            },
            SizComponent {
                bit_depth: 12,
                signed: true,
                x_sampling: 1,
                y_sampling: 1
            },
            SizComponent {
                bit_depth: 1,
                signed: false,
                x_sampling: 1,
                y_sampling: 1
            },
        ]
    );
    assert_eq!(siz.image_extent_at(0), (512, 256));
    for i in 0..3 {
        assert_eq!(siz.component_extent(i), Some((512, 256)));
    }
    assert_eq!(siz.component_extent(3), None);
}

#[test]
fn subsampled_siz_derives_each_component_extent() {
    let siz = siz_of(4, &[(7, 1, 1), (7, 2, 1), (7, 1, 2), (7, 2, 2)]);
    assert_eq!(siz.image_extent_at(0), (512, 256));
    assert_eq!(siz.component_extent(0), Some((512, 256)));
    assert_eq!(siz.component_extent(1), Some((256, 256)));
    assert_eq!(siz.component_extent(2), Some((512, 128)));
    assert_eq!(siz.component_extent(3), Some((256, 128)));
}

#[test]
fn component_extent_ceils_each_edge_separately() {
    let mut siz = siz_of(1, &[(7, 2, 2)]);
    siz.x_size = 8;
    siz.y_size = 8;
    siz.x_offset = 1;
    siz.y_offset = 1;
    assert_eq!(siz.component_extent(0), Some((3, 3)));
    assert_eq!(siz.image_extent_at(0), (7, 7));
}

#[test]
fn too_many_components_is_marker() {
    let body = siz_body(MAX_COMPONENTS + 1, &[]);
    assert!(matches!(
        decode_siz(Cursor::new(&body)),
        Err(Error::Marker(_))
    ));
}

#[test]
fn component_record_count_must_match_csiz() {
    let body = siz_body(2, &[(7, 1, 1)]);
    assert!(matches!(
        decode_siz(Cursor::new(&body)),
        Err(Error::Codestream(_))
    ));
}

#[test]
fn zero_sub_sampling_factor_is_marker() {
    for comp in [(7, 0, 1), (7, 1, 0)] {
        let body = siz_body(1, &[comp]);
        assert!(
            matches!(decode_siz(Cursor::new(&body)), Err(Error::Marker(_))),
            "{comp:?} should reject"
        );
    }
}

#[test]
fn bit_depth_above_38_is_marker() {
    assert_eq!(siz_of(1, &[(37, 1, 1)]).components[0].bit_depth, 38);
    let body = siz_body(1, &[(38, 1, 1)]);
    assert!(matches!(
        decode_siz(Cursor::new(&body)),
        Err(Error::Marker(_))
    ));
    assert_eq!(siz_of(1, &[(0x80 | 37, 1, 1)]).components[0].bit_depth, 38);
    assert!(siz_of(1, &[(0x80 | 37, 1, 1)]).components[0].signed);
}

fn many_component_siz(count: u16) -> Vec<u8> {
    let mut body = siz_geom(4096, 4096, 0, 0, 4096, 4096, 0, 0);
    body.truncate(body.len() - 5);
    body.extend_from_slice(&be16(count));
    for _ in 0..count {
        body.extend_from_slice(&[7, 1, 1]);
    }
    body
}

#[test]
fn many_components_exceed_the_sample_budget() {
    let bytes = codestream(&[
        seg(marker::SIZ, &many_component_siz(100)),
        seg(marker::COD, &cod_default(1)),
        seg(marker::QCD, &qcd_none(2, &[8; 16])),
    ]);
    let e = err(&bytes);
    assert!(
        matches!(&e, Error::Limit(m) if m.contains("decode guard")),
        "got {e:?}"
    );

    let bytes = codestream(&[
        seg(marker::SIZ, &siz_geom(4096, 4096, 0, 0, 4096, 4096, 0, 0)),
        seg(marker::COD, &cod_default(1)),
        seg(marker::QCD, &qcd_none(2, &[8; 16])),
    ]);
    assert!(parse_main_header(&bytes).is_ok());
}

fn header_with(extra: &[u8]) -> Vec<u8> {
    let mut bytes = be16(marker::SOC).to_vec();
    bytes.extend_from_slice(&seg(marker::SIZ, &one_component()));
    bytes.extend_from_slice(&seg(marker::COD, &cod_default(1)));
    bytes.extend_from_slice(&seg(marker::QCD, &qcd_none(2, &[8; 16])));
    bytes.extend_from_slice(extra);
    bytes.extend_from_slice(&be16(marker::SOT));
    bytes
}

#[test]
fn reserved_markers_carry_no_segment() {
    for code in [0xFF30u16, 0xFF37, 0xFF3F] {
        let bytes = header_with(&be16(code));
        parse_main_header(&bytes).unwrap_or_else(|e| panic!("{code:#06X} should walk: {e:?}"));
    }
    let mut extra = be16(0xFF30).to_vec();
    extra.extend_from_slice(&be16(0xFF3F));
    extra.extend_from_slice(&seg(marker::COM, b"note"));
    extra.extend_from_slice(&be16(0xFF31));
    assert!(parse_main_header(&header_with(&extra)).is_ok());
}

#[test]
fn unknown_marker_segments_are_walked_then_reported_unsupported() {
    for code in [
        0xFF01u16,
        0xFF2F,
        0xFF40,
        0xFF73,
        0xFF79,
    ] {
        let bytes = header_with(&seg(code, &[1, 2, 3, 4]));

        let (segments, _) =
            walk_main_header(&bytes).unwrap_or_else(|e| panic!("{code:#06X}: {e:?}"));
        assert!(
            segments.iter().any(|s| s.code == code),
            "{code:#06X} located"
        );

        let e = err(&bytes);
        assert!(
            matches!(&e, Error::Unsupported(m) if m.contains("unrecognized")),
            "{code:#06X}: got {e:?}",
        );
    }
}

#[test]
fn a_non_marker_where_a_marker_belongs_is_codestream() {
    let bytes = header_with(&[0x12, 0x34]);
    assert!(matches!(err(&bytes), Error::Codestream(_)));
}

#[test]
fn header_altering_markers_are_rejected_not_skipped() {
    for code in [marker::CAP, marker::PPT, marker::SOP] {
        let bytes = header_with(&seg(code, &[0, 0]));
        assert!(
            matches!(err(&bytes), Error::Unsupported(_)),
            "{code:#06X} should be Unsupported"
        );
    }
    let bytes = header_with(&be16(marker::EPH));
    assert!(matches!(err(&bytes), Error::Unsupported(_)));
}

#[test]
fn duplicate_siz_is_codestream() {
    let bytes = header_with(&seg(marker::SIZ, &one_component()));
    assert!(matches!(err(&bytes), Error::Codestream(_)));
}

#[test]
fn a_second_soc_in_the_main_header_is_codestream() {
    let bytes = header_with(&be16(marker::SOC));
    assert!(matches!(err(&bytes), Error::Codestream(_)));
}

#[test]
fn too_many_marker_segments_is_codestream() {
    let mut extra = Vec::new();
    for _ in 0..=MAX_MAIN_HEADER_SEGMENTS {
        extra.extend_from_slice(&be16(0xFF30));
    }
    let bytes = header_with(&extra);
    assert!(matches!(err(&bytes), Error::Codestream(_)));

    let mut extra = Vec::new();
    for _ in 0..MAX_MAIN_HEADER_SEGMENTS - 4 {
        extra.extend_from_slice(&be16(0xFF30));
    }
    assert!(parse_main_header(&header_with(&extra)).is_ok());
}

#[derive(Debug, Clone, Copy, PartialEq, Eq)]
enum Variant {
    Codestream,
    Marker,
    Unsupported,
    Limit,
}

fn variant_of(e: &Error) -> Variant {
    match e {
        Error::Codestream(_) => Variant::Codestream,
        Error::Marker(_) => Variant::Marker,
        Error::Unsupported(_) => Variant::Unsupported,
        Error::Limit(_) => Variant::Limit,
        other => panic!("main-header parsing should not raise {other:?}"),
    }
}

fn header_with_cod(cod: Vec<u8>) -> Vec<u8> {
    codestream(&[
        seg(marker::SIZ, &one_component()),
        seg(marker::COD, &cod),
        seg(marker::QCD, &qcd_none(2, &[8; 16])),
    ])
}

#[test]
fn reject_matrix_maps_every_out_of_subset_input_to_its_typed_error() {
    let jp2 = {
        let mut bytes = JP2_SIGNATURE.to_vec();
        bytes.extend_from_slice(b"....ftypjp2 ");
        bytes
    };

    let mut rows: Vec<(&str, Error, Variant)> = vec![
        (
            "JP2 file format wrapper",
            parse(&jp2).expect_err("JP2 is not a bare codestream"),
            Variant::Unsupported,
        ),
        (
            "HTJ2K capabilities (CAP)",
            err(&header_with(&seg(marker::CAP, &[0, 0]))),
            Variant::Unsupported,
        ),
        (
            "components over the sample budget",
            err(&codestream(&[
                seg(marker::SIZ, &many_component_siz(100)),
                seg(marker::COD, &cod_default(1)),
                seg(marker::QCD, &qcd_none(2, &[8; 16])),
            ])),
            Variant::Limit,
        ),
        (
            "image origin at the far edge",
            err(&codestream(&[seg(
                marker::SIZ,
                &siz_geom(512, 256, 512, 0, 512, 256, 0, 0),
            )])),
            Variant::Marker,
        ),
        (
            "tile grid past the Isot range",
            err(&codestream(&[seg(
                marker::SIZ,
                &siz_geom(65536, 1, 0, 0, 1, 1, 0, 0),
            )])),
            Variant::Marker,
        ),
        (
            "zero precinct exponent above resolution 0",
            err(&header_with_cod({
                let mut body = cod_body(0x01, 0, 1, 0, 1, 4, 4, 0, 1);
                body.extend_from_slice(&[0x55, 0x50]);
                body
            })),
            Variant::Marker,
        ),
        (
            "reserved Scod bit",
            err(&header_with_cod(cod_body(0x08, 0, 1, 0, 5, 4, 4, 0, 1))),
            Variant::Marker,
        ),
        (
            "zero quality layers",
            err(&header_with_cod(cod_body(0, 0, 0, 0, 5, 4, 4, 0, 1))),
            Variant::Marker,
        ),
        (
            "colour transform over mixed wavelets",
            err(&codestream(&[
                seg(marker::SIZ, &siz_body(3, &[(7, 1, 1); 3])),
                seg(marker::COD, &cod_body(0, 0, 1, 1, 5, 4, 4, 0, 0)),
                seg(marker::COC, &coc_body(&[1], 0, 5, 4, 4, 0, 1)),
                seg(marker::QCD, &qcd_expounded(2, &[(8, 0); 16])),
            ])),
            Variant::Unsupported,
        ),
        (
            "Part 2 array multiple-component transform",
            err(&header_with_cod(cod_body(0, 0, 1, 2, 5, 4, 4, 0, 1))),
            Variant::Unsupported,
        ),
        (
            "colour transform without three components",
            err(&header_with_cod(cod_body(0, 0, 1, 1, 5, 4, 4, 0, 1))),
            Variant::Marker,
        ),
        (
            "reserved progression order",
            err(&header_with_cod(cod_body(0, 5, 1, 0, 5, 4, 4, 0, 1))),
            Variant::Marker,
        ),
        (
            "reserved wavelet transform",
            err(&header_with_cod(cod_body(0, 0, 1, 0, 5, 4, 4, 0, 2))),
            Variant::Marker,
        ),
        (
            "zero components",
            err(&codestream(&[seg(marker::SIZ, &siz_body(0, &[]))])),
            Variant::Marker,
        ),
        (
            "component count above the 16384 limit",
            err(&codestream(&[seg(
                marker::SIZ,
                &siz_body(MAX_COMPONENTS + 1, &[]),
            )])),
            Variant::Marker,
        ),
        (
            "zero sub-sampling factor",
            err(&codestream(&[seg(marker::SIZ, &siz_body(1, &[(7, 0, 1)]))])),
            Variant::Marker,
        ),
        (
            "bit depth above 38",
            err(&codestream(&[seg(
                marker::SIZ,
                &siz_body(1, &[(38, 1, 1)]),
            )])),
            Variant::Marker,
        ),
        (
            "zero-size image",
            err(&codestream(&[seg(
                marker::SIZ,
                &siz_geom(0, 256, 0, 0, 512, 256, 0, 0),
            )])),
            Variant::Marker,
        ),
        (
            "missing SOC",
            err(&seg(marker::SIZ, &one_component())),
            Variant::Codestream,
        ),
        (
            "SIZ not the first marker",
            err(&{
                let mut b = be16(marker::SOC).to_vec();
                b.extend_from_slice(&seg(marker::COD, &cod_default(1)));
                b
            }),
            Variant::Codestream,
        ),
        (
            "unknown marker without a length",
            err(&{
                let mut b = be16(marker::SOC).to_vec();
                b.extend_from_slice(&seg(marker::SIZ, &one_component()));
                b.extend_from_slice(&be16(0xFF01));
                b
            }),
            Variant::Codestream,
        ),
        (
            "duplicate COD",
            err(&codestream(&[
                seg(marker::SIZ, &one_component()),
                seg(marker::COD, &cod_default(1)),
                seg(marker::COD, &cod_default(1)),
                seg(marker::QCD, &qcd_none(2, &[8; 16])),
            ])),
            Variant::Codestream,
        ),
    ];

    for (name, code) in [("PPT", marker::PPT), ("SOP", marker::SOP)] {
        rows.push((
            name,
            err(&header_with(&seg(code, &[0, 0]))),
            Variant::Unsupported,
        ));
    }

    for (name, code) in [
        ("MCT", marker::MCT),
        ("MCC", marker::MCC),
        ("NLT", marker::NLT),
        ("MCO", marker::MCO),
        ("CBD", marker::CBD),
    ] {
        rows.push((
            name,
            err(&header_with(&seg(code, &[0, 0]))),
            Variant::Unsupported,
        ));
    }
    rows.push((
        "PLT in the main header",
        err(&header_with(&seg(marker::PLT, &[0, 0]))),
        Variant::Codestream,
    ));
    rows.push((
        "EPH",
        err(&header_with(&be16(marker::EPH))),
        Variant::Unsupported,
    ));

    for (bit, name) in flags() {
        if bit & (LAZY | TERMALL | PTERM | SEGSYM | VCAUSAL | RESET) != 0 {
            continue;
        }
        rows.push((
            name,
            err(&header_with_cod(cod_body(0, 0, 1, 0, 5, 4, 4, bit, 1))),
            Variant::Unsupported,
        ));
    }

    let wrong: Vec<String> = rows
        .iter()
        .filter(|(_, error, want)| variant_of(error) != *want)
        .map(|(feature, error, want)| format!("  {feature}: expected {want:?}, got {error:?}"))
        .collect();
    assert!(
        wrong.is_empty(),
        "{} inputs mapped to the wrong error variant:\n{}",
        wrong.len(),
        wrong.join("\n"),
    );
}

#[test]
fn the_decoded_styles_parse_and_the_rest_still_reject() {
    for style in [
        0,
        LAZY,
        TERMALL,
        PTERM,
        SEGSYM,
        VCAUSAL,
        RESET,
        LAZY | TERMALL | PTERM | SEGSYM | VCAUSAL | RESET,
    ] {
        let bytes = codestream(&[
            seg(marker::SIZ, &one_component()),
            seg(marker::COD, &cod_body(0, 0, 1, 0, 5, 4, 4, style, 1)),
            seg(marker::QCD, &qcd_none(2, &[8; 16])),
        ]);
        let (header, _, _) = parse_main_header(&bytes).expect("a decoded style parses");
        assert_eq!(header.cod.code_block_style, style);
    }

    let e = err(&header_with_cod(cod_body(
        0,
        0,
        1,
        0,
        5,
        4,
        4,
        VCAUSAL | RESET | 0x40,
        1,
    )));
    let Error::Unsupported(message) = &e else {
        panic!("got {e:?}")
    };
    assert!(message.contains("high-throughput"), "{message}");
    for decoded in [
        "selective arithmetic coding bypass",
        "vertically causal context",
        "reset context probabilities",
        "termination on each coding pass",
        "segmentation symbols",
        "predictable termination",
    ] {
        assert!(
            !message.contains(decoded),
            "{decoded} is decoded and must not be named as a blocker: {message}"
        );
    }
}

#[test]
fn code_block_style_rejection_names_the_flags() {
    let bytes = header_with_cod(cod_body(0, 0, 1, 0, 5, 4, 4, 0x40 | 0x80, 1));
    let e = err(&bytes);
    let Error::Unsupported(message) = &e else {
        panic!("got {e:?}")
    };
    assert!(message.contains("high-throughput"), "{message}");
    assert!(message.contains("mixed-mode"), "{message}");

    for (bit, name) in [(0x40u8, "high-throughput"), (0x80, "mixed-mode")] {
        let e = err(&header_with_cod(cod_body(0, 0, 1, 0, 5, 4, 4, bit, 1)));
        let Error::Unsupported(message) = &e else {
            panic!("{bit:#04X}: got {e:?}")
        };
        assert!(message.contains(name), "{bit:#04X}: {message}");
    }

    let all: u8 = flags()
        .iter()
        .fold(0, |acc, (bit, _)| acc | bit);
    assert_eq!(all, u8::MAX, "every style bit must be named");
}

fn coc_body(
    index_bytes: &[u8],
    scoc: u8,
    nl: u8,
    xcb: u8,
    ycb: u8,
    style: u8,
    transform: u8,
) -> Vec<u8> {
    let mut b = index_bytes.to_vec();
    b.push(scoc);
    b.extend_from_slice(&[nl, xcb, ycb, style, transform]);
    b
}

fn parsed(segments: &[Vec<u8>]) -> MainHeader {
    let (header, _, _) = parse_main_header(&codestream(segments)).expect("parses");
    header
}

#[test]
fn overrides_resolve_else_default_per_component() {
    let siz = siz_body(3, &[(15, 1, 1); 3]);
    let header = parsed(&[
        seg(marker::SIZ, &siz),
        seg(marker::COD, &cod_body(0, 0, 1, 0, 5, 4, 4, 0, 1)),
        seg(marker::COC, &coc_body(&[1], 0, 3, 2, 2, 0x04, 1)),
        seg(marker::QCD, &qcd_none(2, &[8; 16])),
        seg(marker::QCC, &{
            let mut b = vec![2u8];
            b.extend_from_slice(&qcd_none(4, &[9; 16]));
            b
        }),
    ]);

    assert_eq!(header.components[0].coding, header.cod.coding());
    assert_eq!(header.components[0].quant, header.qcd);

    assert_eq!(header.components[1].coding.decomposition_levels, 3);
    assert_eq!(header.components[1].coding.code_block_style, 0x04);
    assert_eq!(header.components[1].coding.code_block_width, 2);
    assert_eq!(header.components[1].quant, header.qcd);

    assert_eq!(header.components[2].coding, header.cod.coding());
    assert_eq!(header.components[2].quant.guard_bits, 4);
    assert_ne!(header.components[2].quant, header.qcd);
}

#[test]
fn component_index_is_two_bytes_from_257_components() {
    let narrow = vec![(15u8, 1u8, 1u8); 256];
    let header = parsed(&[
        seg(marker::SIZ, &siz_body(256, &narrow)),
        seg(marker::COD, &cod_body(0, 0, 1, 0, 5, 4, 4, 0, 1)),
        seg(marker::COC, &coc_body(&[255], 0, 3, 4, 4, 0, 1)),
        seg(marker::QCD, &qcd_none(2, &[8; 16])),
    ]);
    assert_eq!(header.components[255].coding.decomposition_levels, 3);
    assert_eq!(header.components[0].coding.decomposition_levels, 5);

    let wide = vec![(15u8, 1u8, 1u8); 257];
    let header = parsed(&[
        seg(marker::SIZ, &siz_body(257, &wide)),
        seg(marker::COD, &cod_body(0, 0, 1, 0, 5, 4, 4, 0, 1)),
        seg(marker::COC, &coc_body(&[0x01, 0x00], 0, 3, 4, 4, 0, 1)),
        seg(marker::QCD, &qcd_none(2, &[8; 16])),
    ]);
    assert_eq!(header.components[256].coding.decomposition_levels, 3);
    assert_eq!(header.components[0].coding.decomposition_levels, 5);
}

#[test]
fn an_override_past_the_component_count_is_a_marker_error() {
    let bytes = codestream(&[
        seg(marker::SIZ, &one_component()),
        seg(marker::COD, &cod_default(1)),
        seg(marker::COC, &coc_body(&[3], 0, 3, 4, 4, 0, 1)),
        seg(marker::QCD, &qcd_none(2, &[8; 16])),
    ]);
    assert!(matches!(err(&bytes), Error::Marker(_)));
}

#[test]
fn a_second_override_for_one_component_is_a_codestream_error() {
    let coc = seg(marker::COC, &coc_body(&[0], 0, 3, 4, 4, 0, 1));
    let bytes = codestream(&[
        seg(marker::SIZ, &one_component()),
        seg(marker::COD, &cod_default(1)),
        coc.clone(),
        coc,
        seg(marker::QCD, &qcd_none(2, &[8; 16])),
    ]);
    assert!(matches!(err(&bytes), Error::Codestream(_)));

    let qcc = seg(marker::QCC, &{
        let mut b = vec![0u8];
        b.extend_from_slice(&qcd_none(2, &[8; 16]));
        b
    });
    let bytes = codestream(&[
        seg(marker::SIZ, &one_component()),
        seg(marker::COD, &cod_default(1)),
        seg(marker::QCD, &qcd_none(2, &[8; 16])),
        qcc.clone(),
        qcc,
    ]);
    assert!(matches!(err(&bytes), Error::Codestream(_)));
}

#[test]
fn a_coc_carries_its_own_precinct_partition() {
    let with = |scoc, tail: &[u8]| {
        let mut coc = coc_body(&[0], scoc, 3, 4, 4, 0, 1);
        coc.extend_from_slice(tail);
        let header = vec![
            seg(marker::SIZ, &one_component()),
            seg(marker::COD, &cod_default(1)),
            seg(marker::COC, &coc),
            seg(marker::QCD, &qcd_none(2, &[8; 16])),
        ];
        let data = [0xDE, 0xAD];
        assemble(&header, &sot_seg(0, psot_for(&data), 0, 1), &data, true)
    };
    let bytes = with(0x01, &[0x22, 0x33, 0x44, 0x55]);
    let cs = parse(&bytes).expect("COC precincts parse");
    assert_eq!(
        cs.header.components[0].coding.precinct_sizes,
        vec![(2, 2), (3, 3), (4, 4), (5, 5)],
    );
    assert!(cs.header.cod.precinct_sizes.is_empty());

    assert!(matches!(perr(&with(0x02, &[])), Error::Marker(_)));
    assert!(matches!(perr(&with(0x80, &[])), Error::Marker(_)));
}

#[test]
fn a_coc_cannot_smuggle_in_an_undecoded_code_block_style() {
    let bytes = codestream(&[
        seg(marker::SIZ, &one_component()),
        seg(marker::COD, &cod_default(1)),
        seg(marker::COC, &coc_body(&[0], 0, 3, 4, 4, 0x40, 1)),
        seg(marker::QCD, &qcd_none(2, &[8; 16])),
    ]);
    let e = err(&bytes);
    let Error::Unsupported(message) = &e else {
        panic!("got {e:?}")
    };
    assert!(message.contains("high-throughput"), "{message}");
    assert!(
        message.contains("COC"),
        "the message must name the marker: {message}"
    );
}

#[test]
fn a_coc_moving_a_colour_component_to_the_97_wavelet_is_unsupported() {
    let scalar_qcc = |component: u8| {
        seg(marker::QCC, &{
            let mut b = vec![component];
            b.extend_from_slice(&qcd_expounded(2, &[(8, 0); 16]));
            b
        })
    };

    let siz = siz_body(3, &[(15, 1, 1); 3]);
    let bytes = codestream(&[
        seg(marker::SIZ, &siz),
        seg(marker::COD, &cod_body(0, 0, 1, 1, 5, 4, 4, 0, 1)),
        seg(marker::COC, &coc_body(&[1], 0, 5, 4, 4, 0, 0)),
        seg(marker::QCD, &qcd_none(2, &[8; 16])),
        scalar_qcc(1),
    ]);
    let e = err(&bytes);
    let Error::Unsupported(message) = &e else {
        panic!("got {e:?}")
    };
    assert!(message.contains("component 1"), "{message}");

    let siz = siz_body(4, &[(15, 1, 1); 4]);
    let bytes = codestream(&[
        seg(marker::SIZ, &siz),
        seg(marker::COD, &cod_body(0, 0, 1, 1, 5, 4, 4, 0, 1)),
        seg(marker::COC, &coc_body(&[3], 0, 5, 4, 4, 0, 0)),
        seg(marker::QCD, &qcd_none(2, &[8; 16])),
        scalar_qcc(3),
    ]);
    assert!(parse_main_header(&bytes).is_ok());
}

#[test]
fn a_malformed_qcc_names_qcc_and_not_qcd() {
    let bytes = codestream(&[
        seg(marker::SIZ, &one_component()),
        seg(marker::COD, &cod_default(1)),
        seg(marker::QCD, &qcd_none(2, &[8; 16])),
        seg(marker::QCC, &[0, (2 << 5) | 2, 0x00]),
    ]);
    let e = err(&bytes);
    let Error::Codestream(message) = &e else {
        panic!("got {e:?}")
    };
    assert!(message.contains("QCC"), "{message}");
    assert!(!message.contains("QCD"), "{message}");
}

fn rgn_body(index_bytes: &[u8], srgn: u8, shift: u8) -> Vec<u8> {
    let mut b = index_bytes.to_vec();
    b.extend_from_slice(&[srgn, shift]);
    b
}

#[test]
fn rgn_sets_the_maxshift_of_one_component() {
    let header = parsed(&[
        seg(marker::SIZ, &siz_body(3, &[(15, 1, 1); 3])),
        seg(marker::COD, &cod_default(1)),
        seg(marker::RGN, &rgn_body(&[1], 0, 9)),
        seg(marker::QCD, &qcd_none(2, &[8; 16])),
    ]);
    assert_eq!(header.components[0].roi_shift, 0);
    assert_eq!(header.components[1].roi_shift, 9);
    assert_eq!(header.components[2].roi_shift, 0);
}

#[test]
fn rgn_component_index_is_two_bytes_from_257_components() {
    let header = parsed(&[
        seg(marker::SIZ, &siz_body(257, &vec![(15u8, 1u8, 1u8); 257])),
        seg(marker::COD, &cod_default(1)),
        seg(marker::RGN, &rgn_body(&[0x01, 0x00], 0, 4)),
        seg(marker::QCD, &qcd_none(2, &[8; 16])),
    ]);
    assert_eq!(header.components[256].roi_shift, 4);
    assert_eq!(header.components[0].roi_shift, 0);
}

#[test]
fn a_non_maxshift_roi_style_is_unsupported() {
    let bytes = codestream(&[
        seg(marker::SIZ, &one_component()),
        seg(marker::COD, &cod_default(1)),
        seg(marker::RGN, &rgn_body(&[0], 1, 9)),
        seg(marker::QCD, &qcd_none(2, &[8; 16])),
    ]);
    assert!(matches!(err(&bytes), Error::Unsupported(_)));
}

#[test]
fn an_rgn_past_the_component_count_is_a_marker_error() {
    let bytes = codestream(&[
        seg(marker::SIZ, &one_component()),
        seg(marker::COD, &cod_default(1)),
        seg(marker::RGN, &rgn_body(&[3], 0, 9)),
        seg(marker::QCD, &qcd_none(2, &[8; 16])),
    ]);
    assert!(matches!(err(&bytes), Error::Marker(_)));
}

#[test]
fn a_second_rgn_for_one_component_is_a_codestream_error() {
    let rgn = seg(marker::RGN, &rgn_body(&[0], 0, 9));
    let bytes = codestream(&[
        seg(marker::SIZ, &one_component()),
        seg(marker::COD, &cod_default(1)),
        rgn.clone(),
        rgn,
        seg(marker::QCD, &qcd_none(2, &[8; 16])),
    ]);
    assert!(matches!(err(&bytes), Error::Codestream(_)));
}

#[test]
fn a_wrong_length_rgn_is_rejected() {
    for body in [vec![0u8, 0], vec![0u8, 0, 9, 9]] {
        let bytes = codestream(&[
            seg(marker::SIZ, &one_component()),
            seg(marker::COD, &cod_default(1)),
            seg(marker::RGN, &body),
            seg(marker::QCD, &qcd_none(2, &[8; 16])),
        ]);
        assert!(
            matches!(err(&bytes), Error::Codestream(_)),
            "{body:?} should reject"
        );
    }
}

fn assemble_with_tile_markers(header: &[Vec<u8>], markers: &[Vec<u8>], data: &[u8]) -> Vec<u8> {
    let markers_len: usize = markers.iter().map(Vec::len).sum();
    let mut sot = sot_seg(0, psot_for(data) + markers_len as u32, 0, 1);
    for m in markers {
        sot.extend_from_slice(m);
    }
    assemble(header, &sot, data, true)
}

#[test]
fn a_tile_part_rgn_overrides_the_main_header_shift() {
    let mut header = default_header();
    header.push(seg(marker::RGN, &rgn_body(&[0], 0, 11)));
    let rgn = seg(marker::RGN, &rgn_body(&[0], 0, 9));
    let bytes = assemble_with_tile_markers(&header, &[rgn], &[1, 2]);

    let cs = parse(&bytes).expect("parse");
    assert_eq!(cs.tile_header(0).unwrap().components[0].roi_shift, 9);
    assert_eq!(
        cs.header.components[0].roi_shift, 11,
        "the tile's override must not be written back over the main header"
    );
}

#[test]
fn a_tile_part_rgn_names_one_component() {
    let header = [
        seg(marker::SIZ, &siz_body(3, &[(15, 1, 1); 3])),
        seg(marker::COD, &cod_default(1)),
        seg(marker::RGN, &rgn_body(&[2], 0, 11)),
        seg(marker::QCD, &qcd_none(2, &[8; 16])),
    ];
    let rgn = seg(marker::RGN, &rgn_body(&[1], 0, 9));
    let bytes = assemble_with_tile_markers(&header, &[rgn], &[1, 2]);

    let cs = parse(&bytes).expect("parse");
    let tile = cs.tile_header(0).expect("resolve tile 0");
    assert_eq!(tile.components[0].roi_shift, 0);
    assert_eq!(tile.components[1].roi_shift, 9, "the tile-part's RGN");
    assert_eq!(
        tile.components[2].roi_shift, 11,
        "the main header's, unopposed"
    );
}

#[test]
fn a_tile_part_poc_appends_to_the_main_header_poc() {
    let main_poc = [0u8, 0, 0, 1, 2, 1, 0];
    let header = [
        seg(marker::SIZ, &one_component()),
        seg(marker::COD, &cod_default(1)),
        seg(marker::POC, &main_poc),
        seg(marker::QCD, &qcd_none(2, &[8; 16])),
    ];
    let tile_poc = seg(marker::POC, &[0u8, 0, 0, 1, 3, 1, 1]);
    let bytes = assemble_with_tile_markers(&header, &[tile_poc], &[1, 2]);

    let cs = parse(&bytes).expect("parse");
    let tile = cs.tile_header(0).expect("resolve tile 0");
    assert_eq!(tile.poc.len(), 2, "main volume then tile volume");
    assert_eq!(
        (tile.poc[0].res_end, tile.poc[0].progression),
        (2, Progression::Lrcp),
        "the main header's volume comes first",
    );
    assert_eq!(
        (tile.poc[1].res_end, tile.poc[1].progression),
        (3, Progression::Rlcp),
        "the tile-part's volume is appended",
    );
}

#[test]
fn a_tile_cod_outranks_a_main_header_coc() {
    let header = [
        seg(marker::SIZ, &siz_body(2, &[(15, 1, 1); 2])),
        seg(marker::COD, &cod_body(0, 0, 1, 0, 5, 4, 4, 0, 1)),
        seg(marker::COC, &coc_body(&[0], 0, 3, 4, 4, 0, 1)),
        seg(marker::QCD, &qcd_none(2, &[8; 16])),
    ];
    let tile_cod = seg(marker::COD, &cod_body(0, 0, 1, 0, 2, 4, 4, 0, 1));
    let bytes = assemble_with_tile_markers(&header, &[tile_cod], &[1, 2]);

    let cs = parse(&bytes).expect("parse");
    let tile = cs.tile_header(0).expect("resolve tile 0");
    assert_eq!(
        tile.components[0].coding.decomposition_levels, 2,
        "the tile COD must beat the main-header COC, not lose to it"
    );
    assert_eq!(tile.components[1].coding.decomposition_levels, 2);

    assert_eq!(cs.header.components[0].coding.decomposition_levels, 3);
    assert_eq!(cs.header.components[1].coding.decomposition_levels, 5);
}

#[test]
fn tile_overrides_resolve_in_the_standard_s_precedence_order() {
    let header = [
        seg(marker::SIZ, &siz_body(3, &[(15, 1, 1); 3])),
        seg(marker::COD, &cod_body(0, 0, 1, 0, 5, 4, 4, 0, 1)),
        seg(marker::COC, &coc_body(&[2], 0, 4, 4, 4, 0, 1)),
        seg(marker::QCD, &qcd_none(2, &[8; 16])),
    ];
    let tile_markers = [
        seg(marker::COD, &cod_body(0, 0, 1, 0, 2, 4, 4, 0, 1)),
        seg(marker::COC, &coc_body(&[0], 0, 1, 4, 4, 0, 1)),
        seg(marker::QCD, &qcd_none(5, &[8; 16])),
        seg(marker::QCC, &{
            let mut b = vec![1u8];
            b.extend_from_slice(&qcd_none(6, &[8; 16]));
            b
        }),
    ];
    let bytes = assemble_with_tile_markers(&header, &tile_markers, &[1, 2]);

    let cs = parse(&bytes).expect("parse");
    let tile = cs.tile_header(0).expect("resolve tile 0");
    let levels = |c: usize| tile.components[c].coding.decomposition_levels;
    assert_eq!(levels(0), 1, "tile COC beats tile COD");
    assert_eq!(levels(1), 2, "tile COD, with no COC anywhere");
    assert_eq!(levels(2), 2, "tile COD beats the main COC's 4");

    let guard = |c: usize| tile.components[c].quant.guard_bits;
    assert_eq!(guard(0), 5, "tile QCD");
    assert_eq!(guard(1), 6, "tile QCC beats tile QCD");
    assert_eq!(guard(2), 5, "tile QCD");
}

#[test]
fn a_tile_with_no_overrides_takes_the_main_header_s_resolution() {
    let header = [
        seg(marker::SIZ, &siz_body(2, &[(15, 1, 1); 2])),
        seg(marker::COD, &cod_body(0, 0, 1, 0, 5, 4, 4, 0, 1)),
        seg(marker::COC, &coc_body(&[0], 0, 3, 4, 4, 0, 1)),
        seg(marker::QCD, &qcd_none(2, &[8; 16])),
    ];
    let bytes = assemble(&header, &sot_seg(0, 0, 0, 1), &[1, 2], true);

    let cs = parse(&bytes).expect("parse");
    assert_eq!(cs.tile_header(0).unwrap().components, cs.header.components);
}

#[test]
fn a_coding_override_in_a_later_tile_part_is_codestream() {
    let first_data = [7, 7, 7];
    let tile_cod = seg(marker::COD, &cod_body(0, 0, 1, 0, 2, 4, 4, 0, 1));

    let mut bytes = be16(marker::SOC).to_vec();
    for part in default_header() {
        bytes.extend_from_slice(&part);
    }
    bytes.extend_from_slice(&sot_seg(0, psot_for(&first_data), 0, 2));
    bytes.extend_from_slice(&be16(marker::SOD));
    bytes.extend_from_slice(&first_data);
    bytes.extend_from_slice(&sot_seg(0, 0, 1, 2));
    bytes.extend_from_slice(&tile_cod);
    bytes.extend_from_slice(&be16(marker::SOD));
    bytes.extend_from_slice(&[8, 8]);
    bytes.extend_from_slice(&be16(marker::EOC));

    assert!(matches!(perr(&bytes), Error::Codestream(_)));
}

#[test]
fn a_tile_cod_outrunning_the_quantization_table_is_marker() {
    let header = [
        seg(marker::SIZ, &one_component()),
        seg(marker::COD, &cod_body(0, 0, 1, 0, 2, 4, 4, 0, 1)),
        seg(marker::QCD, &qcd_none(2, &[8; 7])),
    ];
    let tile_cod = seg(marker::COD, &cod_body(0, 0, 1, 0, 5, 4, 4, 0, 1));
    let bytes = assemble_with_tile_markers(&header, &[tile_cod], &[1, 2]);
    assert!(matches!(perr(&bytes), Error::Marker(_)));
}

#[test]
fn a_second_tile_part_rgn_for_one_component_is_a_codestream_error() {
    let rgn = seg(marker::RGN, &rgn_body(&[0], 0, 9));
    let bytes = assemble_with_tile_markers(&default_header(), &[rgn.clone(), rgn], &[1, 2]);
    assert!(matches!(perr(&bytes), Error::Codestream(_)));
}

#[test]
fn a_tile_part_rgn_with_a_part_2_style_is_unsupported() {
    let rgn = seg(marker::RGN, &rgn_body(&[0], 1, 9));
    let bytes = assemble_with_tile_markers(&default_header(), &[rgn], &[1, 2]);
    assert!(matches!(perr(&bytes), Error::Unsupported(_)));
}

fn tlm_body(stlm: u8, entries: &[u8]) -> Vec<u8> {
    let mut b = vec![0, stlm];
    b.extend_from_slice(entries);
    b
}

#[test]
fn tlm_records_the_tile_part_lengths() {
    let mut segments = default_header();
    segments.push(seg(
        marker::TLM,
        &tlm_body(0x60, &[0, 0, 0x00, 0x13, 0xFF, 0x4C]),
    ));
    let header = parsed(&segments);
    assert_eq!(
        header.tlm,
        vec![TlmEntry {
            tile_index: 0,
            length: 0x0013_FF4C,
        }]
    );
}

#[test]
fn tlm_indices_can_be_implied_and_lengths_two_bytes() {
    let mut segments = default_header();
    segments.push(seg(marker::TLM, &tlm_body(0x00, &[0x12, 0x34])));
    let header = parsed(&segments);
    assert_eq!(
        header.tlm,
        vec![TlmEntry {
            tile_index: 0,
            length: 0x1234,
        }]
    );
}

#[test]
fn tlm_entries_accumulate_across_markers() {
    let mut segments = default_header();
    segments.push(seg(marker::TLM, &tlm_body(0x10, &[0, 0x00, 0x14])));
    segments.push(seg(marker::TLM, &tlm_body(0x10, &[0, 0x00, 0x2C])));
    let header = parsed(&segments);
    assert_eq!(header.tlm.len(), 2);
    assert_eq!(header.tlm[0].length, 0x14);
    assert_eq!(header.tlm[1].length, 0x2C);
}

#[test]
fn tlm_st_3_is_a_marker_error() {
    let mut segments = default_header();
    segments.push(seg(marker::TLM, &tlm_body(0x30, &[0, 0, 0, 0])));
    let bytes = codestream(&segments);
    assert!(matches!(err(&bytes), Error::Marker(_)));
}

#[test]
fn tlm_reserved_stlm_bits_are_a_marker_error() {
    for stlm in [0x01u8, 0x08, 0x80] {
        let mut segments = default_header();
        segments.push(seg(marker::TLM, &tlm_body(stlm, &[0, 0x10])));
        let bytes = codestream(&segments);
        assert!(matches!(err(&bytes), Error::Marker(_)), "Stlm {stlm:#04X}");
    }
}

#[test]
fn tlm_misaligned_body_is_a_codestream_error() {
    let mut segments = default_header();
    segments.push(seg(marker::TLM, &tlm_body(0x60, &[0, 0, 0, 0x13])));
    let bytes = codestream(&segments);
    assert!(matches!(err(&bytes), Error::Codestream(_)));
}

#[test]
fn tlm_naming_a_missing_tile_is_a_marker_error() {
    let mut segments = default_header();
    segments.push(seg(marker::TLM, &tlm_body(0x10, &[1, 0x00, 0x14])));
    let bytes = codestream(&segments);
    assert!(matches!(err(&bytes), Error::Marker(_)));
}

#[test]
fn plm_parses_and_is_skipped() {
    let mut segments = default_header();
    segments.push(seg(marker::PLM, &[0, 2, 0x85, 0x02]));
    let header = parsed(&segments);
    assert_eq!(header.tlm, vec![]);
}

#[test]
fn plm_without_zplm_is_a_codestream_error() {
    let mut segments = default_header();
    segments.push(seg(marker::PLM, &[]));
    let bytes = codestream(&segments);
    assert!(matches!(err(&bytes), Error::Codestream(_)));
}

#[test]
fn plt_parses_in_the_tile_part_header() {
    let plt = seg(marker::PLT, &[0, 0x85, 0x02, 0x10]);
    let bytes = assemble_with_tile_markers(&default_header(), &[plt], &[1, 2]);
    parse(&bytes).expect("PLT is informational and parses");
}

#[test]
fn plt_ending_mid_entry_is_a_codestream_error() {
    let plt = seg(marker::PLT, &[0, 0x85]);
    let bytes = assemble_with_tile_markers(&default_header(), &[plt], &[1, 2]);
    assert!(matches!(perr(&bytes), Error::Codestream(_)));
}

#[test]
fn plt_in_the_main_header_is_a_codestream_error() {
    let mut segments = default_header();
    segments.push(seg(marker::PLT, &[0, 0x10]));
    let bytes = codestream(&segments);
    assert!(matches!(err(&bytes), Error::Codestream(_)));
}

#[test]
fn plm_in_the_tile_part_header_is_a_codestream_error() {
    let plm = seg(marker::PLM, &[0]);
    let bytes = assemble_with_tile_markers(&default_header(), &[plm], &[1, 2]);
    assert!(matches!(perr(&bytes), Error::Codestream(_)));
}

fn with_qcc(body: &[u8]) -> Error {
    err(&codestream(&[
        seg(marker::SIZ, &one_component()),
        seg(marker::COD, &cod_default(1)),
        seg(marker::QCD, &qcd_none(2, &[8; 16])),
        seg(marker::QCC, body),
    ]))
}

#[test]
fn every_quantization_fault_opens_with_its_marker() {
    assert_eq!(
        with_qcc(&[0, (2 << 5) | 2, 0x00]),
        Error::Codestream("QCC step table is truncated".into())
    );
    assert_eq!(
        with_qcc(&[0, 3]),
        Error::Marker("QCC sets reserved quantization style 3".into())
    );
    assert_eq!(
        with_qcc(&[0, 1, 0, 0, 0, 0]),
        Error::Codestream("derived QCC must carry exactly one step entry".into())
    );
    let qcd = err(&codestream(&[
        seg(marker::SIZ, &one_component()),
        seg(marker::COD, &cod_default(1)),
        seg(marker::QCD, &[31]),
    ]));
    assert_eq!(qcd, Error::Marker("QCD sets reserved quantization style 31".into()));
}

#[test]
fn a_known_marker_is_named_and_an_unknown_one_is_called_unrecognized() {
    assert_eq!(
        err(&header_with(&seg(marker::CAP, &[0, 0]))),
        Error::Unsupported("marker CAP (0xFF50) is outside the decoded subset".into())
    );
    assert_eq!(
        err(&header_with(&seg(0xFF70, &[0, 0]))),
        Error::Unsupported("unrecognized marker 0xFF70 in the main header".into())
    );
}

#[test]
fn a_colour_transform_over_mixed_wavelets_names_the_component() {
    for index in [1u8, 2] {
        let bytes = codestream(&[
            seg(marker::SIZ, &siz_body(3, &[(7, 1, 1); 3])),
            seg(marker::COD, &cod_body(0, 0, 1, 1, 5, 4, 4, 0, 0)),
            seg(marker::COC, &coc_body(&[index], 0, 5, 4, 4, 0, 1)),
            seg(marker::QCD, &qcd_expounded(2, &[(8, 0); 16])),
        ]);
        assert_eq!(
            err(&bytes),
            Error::Unsupported(format!(
                "COD signals the colour transform but component {index} uses another wavelet \
                 than component 0"
            ))
        );
    }
}
