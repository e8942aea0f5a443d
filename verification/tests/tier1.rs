//! Subband decoding: bit-plane limits and halving.

use rust_j2k::tier1::decode::BlockParams;
use rust_j2k::tier1::decode_subband;
use rust_j2k::tier1::passes::MAX_BIT_PLANES;
use rust_j2k::tier2::{BandKind, CodeBlock, CodedSegment, Subband};
use rust_j2k::Error;

fn one_block_subband(num_passes: u32, zero_bit_planes: u32) -> Subband<'static> {
    Subband {
        kind: BandKind::Ll,
        origin: (0, 0),
        width: 1,
        height: 1,
        block_cols: 1,
        block_rows: 1,
        blocks: vec![CodeBlock {
            x: 0,
            y: 0,
            width: 1,
            height: 1,
            num_passes,
            zero_bit_planes,
            segments: vec![CodedSegment {
                passes: 1,
                chunks: vec![&[0x80][..]],
            }],
        }],
    }
}

#[test]
fn excessive_bit_planes_rejected() {
    let sb = one_block_subband(1, 0);
    let err = decode_subband(&sb, MAX_BIT_PLANES + 1, default_params(), true)
        .expect_err("must reject");
    assert!(matches!(err, Error::Unsupported(_)), "got {err:?}");
}

#[test]
fn a_maxshift_that_overflows_the_bit_planes_is_rejected() {
    let sb = one_block_subband(1, 0);
    let params = BlockParams {
        style: 0,
        roi_shift: 1,
    };
    let err = decode_subband(&sb, MAX_BIT_PLANES, params, true)
        .expect_err("MAX_BIT_PLANES + 1 planes");
    assert!(matches!(err, Error::Unsupported(_)), "got {err:?}");

    decode_subband(&sb, MAX_BIT_PLANES - 1, params, true).expect("in range");
}

#[test]
fn excess_zero_bit_planes_decodes_to_zeros() {
    let sb = one_block_subband(1, 5);
    let band = decode_subband(&sb, 4, default_params(), true)
        .expect("saturates to zero coded planes");
    assert!(band.data.iter().all(|&c| c == 0));
}

#[test]
fn max_bit_planes_accepted() {
    let sb = one_block_subband(1, 0);
    let band = decode_subband(&sb, MAX_BIT_PLANES, default_params(), true)
        .expect("in range");
    assert_eq!(band.data.len(), 1);
}

fn default_params() -> BlockParams {
    BlockParams::default()
}

#[test]
fn too_many_bit_planes_are_counted() {
    let sb = one_block_subband(1, 0);
    let err = decode_subband(&sb, MAX_BIT_PLANES + 1, default_params(), true).unwrap_err();
    assert_eq!(
        err,
        Error::Unsupported(format!(
            "code-block needs {} bit-planes, over the {MAX_BIT_PLANES}-plane limit",
            MAX_BIT_PLANES + 1
        ))
    );
}
