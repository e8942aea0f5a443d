//! The fuzzing hooks.

use rust_j2k::codestream::parse;
use rust_j2k::fuzz::scaffold::wrap;
use rust_j2k::fuzz::{mq_stream, tier1_block, tile_body};

#[test]
fn fuzz_hooks_run_on_sample_inputs() {
    let samples: [&[u8]; 5] = [
        &[],
        &[0xFF; 40],
        &[0x00; 40],
        &[0x55, 0x1E, 0x22, 0x0A, 0x03, 0x80, 0xFF, 0x91],
        &[0xC0, 0x24, 0x6D, 0x1E, 0x21, 0xFF, 0xD9, 0x00],
    ];
    for sample in samples {
        mq_stream(sample);
        tier1_block(sample);
    }
}

#[test]
fn every_scaffold_is_a_valid_codestream() {
    let bodies: [&[u8]; 4] = [&[], &[0x80], &[0xFF; 300], &[0x1F, 7, 9, 200, 3, 5, 77, 31, 0, 64]];
    for variant in 0..=255u8 {
        for body in bodies {
            let bytes = wrap(variant, body);
            assert!(parse(&bytes).is_ok(), "variant {variant}");
        }
    }
}

#[test]
fn a_scaffold_carries_its_body() {
    let bytes = wrap(1, &[0xAA, 0xBB]);
    let cs = parse(&bytes).unwrap();
    assert_eq!(cs.tiles.len(), 1);
    assert_eq!(cs.tiles[0].bytes(), &[0xAA, 0xBB]);
    assert_eq!(cs.header.components[0].coding.decomposition_levels, 2);

    let packed = wrap(7 << 3, &[2, 0xAA, 0xBB, 0xCC]);
    let cs = parse(&packed).unwrap();
    assert_eq!(cs.tiles[0].packed_headers, vec![0xAA, 0xBB]);
    assert_eq!(cs.tiles[0].bytes(), &[0xCC]);

    let grid = wrap(6 << 3, &[0, 1, 2, 3, 4, 5, 6, 7]);
    let cs = parse(&grid).unwrap();
    assert_eq!(cs.tiles.len(), 4);
    assert_eq!(cs.tiles[1].bytes(), &[1, 5]);
}

#[test]
fn tile_bodies_decode_or_fail_cleanly() {
    for variant in 0..=255u8 {
        tile_body(&[variant, 0xC3, 0x55, 0x01, 0x80, 0x7F, 0xFF, 0x10, 0x00]);
    }
    tile_body(&[]);
}
