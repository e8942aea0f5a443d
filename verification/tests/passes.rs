//! Code-block state, context formation and the coding passes.

use rust_j2k::tier1::block::{BlockState, Orientation, CTX_MR, CTX_SC, CTX_ZC};
use rust_j2k::tier1::decode::{decode_block, BlockParams};

#[test]
fn zero_passes_yields_all_zero_coefficients() {
    let mut state = BlockState::new(4, 4);
    let segments = [(vec![0x84, 0xC7, 0x3B, 0xFC, 0xE1, 0xA1], 0)];
    let params = BlockParams::default();
    decode_block(&segments, &mut state, Orientation::Ll, 8, 0, 0, params).unwrap();
    assert!(state.coeffs.iter().all(|&c| c == 0));
}

fn block_with(sig: &[(u32, u32)]) -> BlockState {
    let mut b = BlockState::new(5, 5);
    for &(x, y) in sig {
        b.set_significant(x, y);
    }
    b
}

#[test]
fn state_round_trips() {
    let mut b = BlockState::new(4, 3);
    assert!(!b.is_significant(1, 2));
    b.set_significant(1, 2);
    assert!(b.is_significant(1, 2));

    assert!(!b.is_visited(1, 2));
    b.set_visited(1, 2, true);
    assert!(b.is_visited(1, 2));
    b.set_visited(1, 2, false);
    assert!(!b.is_visited(1, 2));

    b.set_negative(1, 2, true);
    assert!(b.is_negative(1, 2));

    assert!(!b.is_refined(1, 2));
    b.set_refined(1, 2);
    assert!(b.is_refined(1, 2));
}

#[test]
fn zc_ll_lh_all_labels() {
    let cases: [(&[(u32, u32)], u8); 9] = [
        (&[], 0),
        (&[(1, 1)], 1),
        (&[(1, 1), (3, 3)], 2),
        (&[(2, 1)], 3),
        (&[(2, 1), (2, 3)], 4),
        (&[(1, 2)], 5),
        (&[(1, 2), (1, 1)], 6),
        (&[(1, 2), (2, 1)], 7),
        (&[(1, 2), (3, 2)], 8),
    ];
    for (sig, want) in cases {
        let b = block_with(sig);
        assert_eq!(
            b.zc_context(2, 2, Orientation::Ll),
            CTX_ZC + want,
            "LL {sig:?}"
        );
        assert_eq!(
            b.zc_context(2, 2, Orientation::Lh),
            CTX_ZC + want,
            "LH {sig:?}"
        );
    }
}

#[test]
fn zc_hl_swaps_h_and_v() {
    let horiz = block_with(&[(1, 2), (3, 2)]);
    assert_eq!(horiz.zc_context(2, 2, Orientation::Ll), CTX_ZC + 8);
    assert_eq!(horiz.zc_context(2, 2, Orientation::Hl), CTX_ZC + 4);

    let vert = block_with(&[(2, 1), (2, 3)]);
    assert_eq!(vert.zc_context(2, 2, Orientation::Ll), CTX_ZC + 4);
    assert_eq!(vert.zc_context(2, 2, Orientation::Hl), CTX_ZC + 8);

    let mix = block_with(&[(1, 2), (2, 1)]);
    assert_eq!(mix.zc_context(2, 2, Orientation::Hl), CTX_ZC + 7);
}

#[test]
fn zc_hh_all_labels() {
    let cases: [(&[(u32, u32)], u8); 9] = [
        (&[], 0),
        (&[(2, 1)], 1),
        (&[(2, 1), (1, 2)], 2),
        (&[(1, 1)], 3),
        (&[(1, 1), (2, 1)], 4),
        (&[(1, 1), (2, 1), (1, 2)], 5),
        (&[(1, 1), (3, 3)], 6),
        (&[(1, 1), (3, 3), (2, 1)], 7),
        (&[(1, 1), (3, 3), (3, 1)], 8),
    ];
    for (sig, want) in cases {
        let b = block_with(sig);
        assert_eq!(
            b.zc_context(2, 2, Orientation::Hh),
            CTX_ZC + want,
            "HH {sig:?}"
        );
    }
}

fn block_for_sign(h: i32, v: i32) -> BlockState {
    let mut b = BlockState::new(5, 5);
    let mut sign = |x: u32, y: u32, neg: bool| {
        b.set_significant(x, y);
        b.set_negative(x, y, neg);
    };
    match h {
        1 => sign(1, 2, false),
        -1 => sign(1, 2, true),
        _ => {}
    }
    match v {
        1 => sign(2, 1, false),
        -1 => sign(2, 1, true),
        _ => {}
    }
    b
}

#[test]
fn sc_all_nine_contexts_and_xorbit() {
    let cases: [(i32, i32, u8, u8); 9] = [
        (1, 1, 4, 0),
        (1, 0, 3, 0),
        (1, -1, 2, 0),
        (0, 1, 1, 0),
        (0, 0, 0, 0),
        (0, -1, 1, 1),
        (-1, 1, 2, 1),
        (-1, 0, 3, 1),
        (-1, -1, 4, 1),
    ];
    for (h, v, label, xor) in cases {
        let b = block_for_sign(h, v);
        assert_eq!(b.sc_context(2, 2), (CTX_SC + label, xor), "H={h} V={v}");
    }
}

#[test]
fn sc_contributions_clamp() {
    let mut b = BlockState::new(5, 5);
    for x in [1, 3] {
        b.set_significant(x, 2);
    }
    assert_eq!(b.sc_context(2, 2), (CTX_SC + 3, 0));
}

#[test]
fn mr_first_refinement_with_no_significant_neighbours() {
    let b = BlockState::new(5, 5);
    assert_eq!(b.mr_context(2, 2), CTX_MR);
}

#[test]
fn mr_first_refinement_with_a_significant_neighbour() {
    let b = block_with(&[(2, 1)]);
    assert_eq!(b.mr_context(2, 2), CTX_MR + 1);
}

#[test]
fn mr_after_first_refinement_ignores_neighbours() {
    let mut b = block_with(&[(2, 1)]);
    b.set_refined(2, 2);
    assert_eq!(b.mr_context(2, 2), CTX_MR + 2);
}

#[test]
fn neighbours_clamp_at_corners() {
    let mut b = BlockState::new(3, 3);
    b.set_significant(1, 0);
    assert_eq!(b.zc_context(0, 0, Orientation::Ll), CTX_ZC + 5);

    let mut c = BlockState::new(3, 3);
    c.set_significant(1, 1);
    assert_eq!(c.zc_context(2, 2, Orientation::Ll), CTX_ZC + 1);

    let _ = b.sc_context(0, 0);
    let _ = b.mr_context(0, 0);
}
